//! The languages text recognition can be asked for.

use vstd::prelude::*;

verus! {

/// A recognition language.
#[derive(Clone, Copy, Debug, PartialEq, Eq, Structural)]
pub enum OcrLanguage {
    Japanese,
    English,
    Chinese,
    Korean,
    Arabic,
    Spanish,
}

impl OcrLanguage {
    /// The language's lower-case name.
    pub fn as_str(&self) -> (r: &'static str)
        ensures
            r@ == (match *self {
                OcrLanguage::Japanese => "japanese"@,
                OcrLanguage::English => "english"@,
                OcrLanguage::Chinese => "chinese"@,
                OcrLanguage::Korean => "korean"@,
                OcrLanguage::Arabic => "arabic"@,
                OcrLanguage::Spanish => "spanish"@,
            }),
    {
        match self {
            OcrLanguage::Japanese => "japanese",
            OcrLanguage::English => "english",
            OcrLanguage::Chinese => "chinese",
            OcrLanguage::Korean => "korean",
            OcrLanguage::Arabic => "arabic",
            OcrLanguage::Spanish => "spanish",
        }
    }

    /// Japanese and Chinese are usually set vertically.
    pub fn prefers_vertical(&self) -> (r: bool)
        ensures
            r == (*self == OcrLanguage::Japanese || *self == OcrLanguage::Chinese),
    {
        match self {
            OcrLanguage::Japanese | OcrLanguage::Chinese => true,
            _ => false,
        }
    }

    /// Japanese and Chinese join lines without spaces.
    pub fn prefers_no_space(&self) -> (r: bool)
        ensures
            r == (*self == OcrLanguage::Japanese || *self == OcrLanguage::Chinese),
    {
        match self {
            OcrLanguage::Japanese | OcrLanguage::Chinese => true,
            _ => false,
        }
    }

    pub fn is_japanese(&self) -> (r: bool)
        ensures
            r == (*self == OcrLanguage::Japanese),
    {
        match self {
            OcrLanguage::Japanese => true,
            _ => false,
        }
    }
}

impl Default for OcrLanguage {
    fn default() -> (r: OcrLanguage)
        ensures
            r == OcrLanguage::Japanese,
    {
        OcrLanguage::Japanese
    }
}

} // verus!
