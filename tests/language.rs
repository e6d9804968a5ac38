use manatan_media::language::OcrLanguage;

#[test]
fn language_names_and_preferences() {
    assert_eq!(OcrLanguage::Japanese.as_str(), "japanese");
    assert_eq!(OcrLanguage::Spanish.as_str(), "spanish");
    assert!(OcrLanguage::Japanese.prefers_vertical());
    assert!(OcrLanguage::Chinese.prefers_no_space());
    assert!(!OcrLanguage::Korean.prefers_vertical());
    assert!(!OcrLanguage::English.prefers_no_space());
    assert!(OcrLanguage::Japanese.is_japanese());
    assert!(!OcrLanguage::Arabic.is_japanese());
    assert_eq!(OcrLanguage::default(), OcrLanguage::Japanese);
}
