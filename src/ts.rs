//! MPEG transport stream handling: packet-size detection, PSI tables,
//! PES headers and ADTS frame extraction.

use vstd::prelude::*;

verus! {

/// The ADTS header test at `i`: sync word `0xFFF`, layer 0 and a sampling
/// index other than 15, with the six header bytes that are read in bounds.
pub open spec fn adts_header_at(d: Seq<u8>, i: int) -> bool {
    &&& 0 <= i
    &&& i + 5 < d.len()
    &&& d[i] == 0xffu8
    &&& d[i + 1] & 0xf0u8 == 0xf0u8
    &&& (d[i + 1] >> 1u8) & 0x03u8 == 0u8
    &&& (d[i + 2] >> 2u8) & 0x0fu8 != 0x0fu8
}

/// The 13-bit `frame_length` field of the ADTS header at `i`.
pub open spec fn adts_length_at(d: Seq<u8>, i: int) -> int {
    ((d[i + 3] & 0x03u8) as int) * 2048 + (d[i + 4] as int) * 8 + ((d[i + 5] & 0xe0u8) >> 5u8) as int
}

/// Whether `data` holds an ADTS header at `index`.
pub fn is_adts_header(data: &[u8], index: usize) -> (r: bool)
    ensures
        r == adts_header_at(data@, index as int),
{
    if index >= data.len() || data.len() - index <= 5 {
        return false;
    }
    if data[index] != 0xff || (data[index + 1] & 0xf0) != 0xf0 {
        return false;
    }
    let layer = (data[index + 1] >> 1) & 0x03;
    if layer != 0 {
        return false;
    }
    let sampling_index = (data[index + 2] >> 2) & 0x0f;
    sampling_index != 0x0f
}

/// The frame length stored in the ADTS header at `index`.
pub fn adts_frame_length(data: &[u8], index: usize) -> (r: usize)
    requires
        index + 5 < data@.len(),
    ensures
        r as int == adts_length_at(data@, index as int),
        r < 8192,
{
    // The length is a usize, so the offsets below cannot overflow.
    let _len = data.len();
    let raw3 = data[index + 3];
    let raw5 = data[index + 5];
    let b3 = raw3 & 0x03;
    let b4 = data[index + 4];
    let b5 = (raw5 & 0xe0) >> 5;
    assert(b3 <= 3) by (bit_vector)
        requires
            b3 == raw3 & 0x03u8,
    ;
    assert(b5 <= 7) by (bit_vector)
        requires
            b5 == (raw5 & 0xe0u8) >> 5u8,
    ;
    (b3 as usize) * 2048 + (b4 as usize) * 8 + b5 as usize
}

/// The TS sync byte.
pub const SYNC_BYTE: u8 = 0x47;

/// Every `size`-byte stride of `d` holds the sync byte at offset `off`.
pub open spec fn strides_synced(d: Seq<u8>, size: int, off: int) -> bool {
    forall|k: int| 0 <= k < (d.len() as int) / size ==> #[trigger] d[k * size + off] == SYNC_BYTE
}

/// The transport-stream packet size of `d`: 188 when its length is a
/// non-zero multiple of 188 and each packet starts with the sync byte, else
/// 192 under the same rule with the sync byte after a 4-byte prefix.
pub open spec fn packet_size_of(d: Seq<u8>) -> Option<usize> {
    if d.len() >= 188 && d.len() % 188 == 0 && strides_synced(d, 188, 0) {
        Some(188usize)
    } else if d.len() >= 192 && d.len() % 192 == 0 && strides_synced(d, 192, 4) {
        Some(192usize)
    } else {
        None
    }
}

fn strides_synced_exec(data: &[u8], size: usize, off: usize) -> (r: bool)
    requires
        off < size,
        size > 0,
        (data@.len() as int) % (size as int) == 0,
    ensures
        r == strides_synced(data@, size as int, off as int),
{
    let n = data.len();
    let count = n / size;
    let mut k: usize = 0;
    while k < count
        invariant
            n == data@.len(),
            count == n / size,
            off < size,
            size > 0,
            n % size == 0,
            k <= count,
            forall|j: int| 0 <= j < k ==> #[trigger] data@[j * size + off] == SYNC_BYTE,
        decreases count - k,
    {
        proof {
            assert(k * size + size <= n) by (nonlinear_arith)
                requires
                    k < count,
                    count == n / size,
                    n % size == 0,
                    size > 0,
            ;
        }
        if data[k * size + off] != SYNC_BYTE {
            return false;
        }
        k = k + 1;
    }
    true
}

/// Detects the transport-stream packet size of `data`, if it is one.
pub fn ts_packet_size(data: &[u8]) -> (r: Option<usize>)
    ensures
        r == packet_size_of(data@),
{
    let n = data.len();
    if n >= 188 && n % 188 == 0 && strides_synced_exec(data, 188, 0) {
        return Some(188);
    }
    if n >= 192 && n % 192 == 0 && strides_synced_exec(data, 192, 4) {
        return Some(192);
    }
    None
}

/// The 33-bit presentation timestamp of the five bytes `b`, when all three
/// marker bits are set.
pub open spec fn pts_of(b: Seq<u8>) -> Option<u64> {
    if b[0] & 1u8 == 0u8 || b[2] & 1u8 == 0u8 || b[4] & 1u8 == 0u8 {
        None
    } else {
        Some(
            (((b[0] & 0x0eu8) as u64) << 29u64) | ((b[1] as u64) << 22u64) | (((b[2]
                & 0xfeu8) as u64) << 14u64) | ((b[3] as u64) << 7u64) | (((b[4] & 0xfeu8) as u64)
                >> 1u64),
        )
    }
}

/// The result of reading a PES header: `None` when the payload is shorter
/// than 9 bytes, lacks the `00 00 01` start code or is shorter than the
/// header it announces; else the timestamp (when the PTS/DTS flags are set
/// and the five PTS bytes are present and well marked) and the offset of the
/// data after the header.
pub open spec fn pes_header_of(p: Seq<u8>) -> Option<(Option<u64>, usize)> {
    if p.len() < 9 || p[0] != 0u8 || p[1] != 0u8 || p[2] != 1u8 || p.len() < 9 + p[8] {
        None
    } else {
        let pts = if (p[7] >> 6u8) & 3u8 != 0u8 && p.len() >= 14 {
            pts_of(p.subrange(9, 14))
        } else {
            None
        };
        Some((pts, (9 + p[8]) as usize))
    }
}

/// Decodes the timestamp in `payload[at..at + 5]`.
pub fn decode_pts(payload: &[u8], at: usize) -> (r: Option<u64>)
    requires
        at + 5 <= payload@.len(),
    ensures
        r == pts_of(payload@.subrange(at as int, at + 5)),
{
    // The length is a usize, so the offsets below cannot overflow.
    let _len = payload.len();
    let b0 = payload[at];
    let b1 = payload[at + 1];
    let b2 = payload[at + 2];
    let b3 = payload[at + 3];
    let b4 = payload[at + 4];
    if (b0 & 0x01) == 0 || (b2 & 0x01) == 0 || (b4 & 0x01) == 0 {
        None
    } else {
        Some(
            (((b0 & 0x0e) as u64) << 29) | ((b1 as u64) << 22) | (((b2 & 0xfe) as u64) << 14) | ((
            b3 as u64) << 7) | ((b4 & 0xfe) as u64 >> 1),
        )
    }
}

/// Reads a PES header: its timestamp, if any, and where its data starts.
pub fn parse_pes_header(payload: &[u8]) -> (r: Option<(Option<u64>, usize)>)
    ensures
        r == pes_header_of(payload@),
{
    let n = payload.len();
    if n < 9 {
        return None;
    }
    if payload[0] != 0x00 || payload[1] != 0x00 || payload[2] != 0x01 {
        return None;
    }
    let flags = payload[7];
    let pts_dts = (flags >> 6) & 0x03;
    let header_len = payload[8] as usize;
    let data_start = 9 + header_len;
    if n < data_start {
        return None;
    }
    let pts = if pts_dts != 0 && n >= 14 {
        decode_pts(payload, 9)
    } else {
        None
    };
    Some((pts, data_start))
}

/// The 13-bit PID held by the two bytes at `i` (the low five bits of the
/// first, then the second).
pub open spec fn pid_at(p: Seq<u8>, i: int) -> u16 {
    ((p[i] % 32) as int * 256 + p[i + 1] as int) as u16
}

/// The 12-bit length field held by the two bytes at `i` (the low four bits
/// of the first, then the second).
pub open spec fn length12_at(p: Seq<u8>, i: int) -> int {
    (p[i] % 16) as int * 256 + p[i + 1] as int
}

/// Where a PSI section starts in a TS payload: after the pointer field when
/// the payload unit start indicator is set, else at 0.
pub open spec fn section_start(p: Seq<u8>, pusi: bool) -> Option<int> {
    if !pusi {
        Some(0)
    } else if p.len() == 0 || 1 + p[0] >= p.len() {
        None
    } else {
        Some(1 + p[0])
    }
}

/// The end of the entries of the section at `idx`: its end less the CRC,
/// at least 0.
pub open spec fn entries_end(p: Seq<u8>, idx: int) -> int {
    let end = idx + 3 + length12_at(p, idx + 1);
    if end >= 4 {
        end - 4
    } else {
        0
    }
}

/// The PMT PID of the first program with a non-zero number among the PAT
/// entries from `i` to `limit`.
pub open spec fn pat_scan(p: Seq<u8>, i: int, limit: int) -> Option<u16>
    decreases limit - i,
{
    if i < 0 || i + 4 > limit {
        None
    } else if p[i] != 0u8 || p[i + 1] != 0u8 {
        Some(pid_at(p, i + 2))
    } else {
        pat_scan(p, i + 4, limit)
    }
}

/// The PMT PID that a PAT payload names, if it holds a well-formed section
/// with table id 0 and a program with a non-zero number.
pub open spec fn pat_pmt_pid(p: Seq<u8>, pusi: bool) -> Option<u16> {
    match section_start(p, pusi) {
        None => None,
        Some(idx) => if p.len() < idx + 8 || p[idx] != 0u8 || idx + 3 + length12_at(p, idx + 1)
            > p.len() {
            None
        } else {
            pat_scan(p, idx + 8, entries_end(p, idx))
        },
    }
}

/// The PID of the first elementary stream of type `0x0f` (ADTS AAC) or
/// `0x11` (LATM) among the PMT entries from `i` to `limit`.
pub open spec fn pmt_scan(p: Seq<u8>, i: int, limit: int) -> Option<u16>
    decreases limit - i,
{
    if i < 0 || i + 5 > limit {
        None
    } else if p[i] == 0x0fu8 || p[i] == 0x11u8 {
        Some(pid_at(p, i + 1))
    } else if i + 5 + length12_at(p, i + 3) > limit {
        None
    } else {
        pmt_scan(p, i + 5 + length12_at(p, i + 3), limit)
    }
}

/// The audio PID that a PMT payload names, if it holds a well-formed
/// section with table id 2 and an AAC stream.
pub open spec fn pmt_audio_pid(p: Seq<u8>, pusi: bool) -> Option<u16> {
    match section_start(p, pusi) {
        None => None,
        Some(idx) => if p.len() < idx + 12 || p[idx] != 2u8 || idx + 3 + length12_at(p, idx + 1)
            > p.len() {
            None
        } else {
            pmt_scan(p, idx + 12 + length12_at(p, idx + 10), entries_end(p, idx))
        },
    }
}

/// `found` when there is one, else what was there before.
pub open spec fn updated(prev: Option<u16>, found: Option<u16>) -> Option<u16> {
    match found {
        Some(x) => Some(x),
        None => prev,
    }
}

fn read_pid(p: &[u8], i: usize) -> (r: u16)
    requires
        i + 1 < p@.len(),
    ensures
        r == pid_at(p@, i as int),
{
    // The length is a usize, so the offsets below cannot overflow.
    let _len = p.len();
    ((p[i] % 32) as u16) * 256 + p[i + 1] as u16
}

fn read_length12(p: &[u8], i: usize) -> (r: usize)
    requires
        i + 1 < p@.len(),
    ensures
        r as int == length12_at(p@, i as int),
        r < 4096,
{
    // The length is a usize, so the offsets below cannot overflow.
    let _len = p.len();
    ((p[i] % 16) as usize) * 256 + p[i + 1] as usize
}

fn section_start_exec(payload: &[u8], pusi: bool) -> (r: Option<usize>)
    ensures
        match r {
            Some(i) => section_start(payload@, pusi) == Some(i as int),
            None => section_start(payload@, pusi) is None,
        },
        r matches Some(i) ==> i <= 256,
{
    if !pusi {
        return Some(0);
    }
    if payload.len() == 0 {
        return None;
    }
    let idx = 1 + payload[0] as usize;
    if idx >= payload.len() {
        return None;
    }
    Some(idx)
}

/// Reads a PAT payload and, where it names a PMT PID, stores it.
pub fn parse_pat(payload: &[u8], pusi: bool, pmt_pid: &mut Option<u16>)
    ensures
        *final(pmt_pid) == updated(*old(pmt_pid), pat_pmt_pid(payload@, pusi)),
{
    let n = payload.len();
    let idx = match section_start_exec(payload, pusi) {
        Some(i) => i,
        None => return ,
    };
    if n < idx + 8 || payload[idx] != 0x00 {
        return ;
    }
    let section_length = read_length12(payload, idx + 1);
    let section_end = idx + 3 + section_length;
    if section_end > n {
        return ;
    }
    let limit = if section_end >= 4 {
        section_end - 4
    } else {
        0
    };
    let mut i = idx + 8;
    while i <= limit && limit - i >= 4
        invariant
            n == payload@.len(),
            limit <= n,
            limit == entries_end(payload@, idx as int),
            pat_pmt_pid(payload@, pusi) == pat_scan(payload@, i as int, limit as int),
            *pmt_pid == *old(pmt_pid),
        decreases limit - i,
    {
        if payload[i] != 0 || payload[i + 1] != 0 {
            *pmt_pid = Some(read_pid(payload, i + 2));
            return ;
        }
        i = i + 4;
    }
}

/// Reads a PMT payload and, where it names an AAC elementary stream,
/// stores its PID.
pub fn parse_pmt(payload: &[u8], pusi: bool, audio_pid: &mut Option<u16>)
    ensures
        *final(audio_pid) == updated(*old(audio_pid), pmt_audio_pid(payload@, pusi)),
{
    let n = payload.len();
    let idx = match section_start_exec(payload, pusi) {
        Some(i) => i,
        None => return ,
    };
    if n < idx + 12 || payload[idx] != 0x02 {
        return ;
    }
    let section_length = read_length12(payload, idx + 1);
    let section_end = idx + 3 + section_length;
    if section_end > n {
        return ;
    }
    let limit = if section_end >= 4 {
        section_end - 4
    } else {
        0
    };
    let program_info_length = read_length12(payload, idx + 10);
    let mut i = idx + 12 + program_info_length;
    while i <= limit && limit - i >= 5
        invariant
            n == payload@.len(),
            limit <= n,
            limit == entries_end(payload@, idx as int),
            pmt_audio_pid(payload@, pusi) == pmt_scan(payload@, i as int, limit as int),
            *audio_pid == *old(audio_pid),
        decreases limit - i,
    {
        let stream_type = payload[i];
        if stream_type == 0x0f || stream_type == 0x11 {
            *audio_pid = Some(read_pid(payload, i + 1));
            return ;
        }
        let es_info_length = read_length12(payload, i + 3);
        if es_info_length > limit - (i + 5) {
            return ;
        }
        i = i + 5 + es_info_length;
    }
}

/// The ADTS stream that a scan from `i` collects: at each position, a valid
/// header with a length of at least 7 that fits emits that many bytes and
/// jumps past them; a valid header whose frame overruns the input ends the
/// scan; anything else moves on by one byte.
pub open spec fn adts_scan(d: Seq<u8>, i: int) -> Seq<u8>
    decreases d.len() - i,
{
    if i < 0 || i + 7 > d.len() {
        Seq::empty()
    } else if adts_header_at(d, i) && adts_length_at(d, i) >= 7 {
        if i + adts_length_at(d, i) <= d.len() {
            d.subrange(i, i + adts_length_at(d, i)) + adts_scan(d, i + adts_length_at(d, i))
        } else {
            Seq::empty()
        }
    } else {
        adts_scan(d, i + 1)
    }
}

/// The start offsets of the frames that `adts_scan(d, i)` emits, in order.
pub open spec fn adts_frame_starts(d: Seq<u8>, i: int) -> Seq<int>
    decreases d.len() - i,
{
    if i < 0 || i + 7 > d.len() {
        Seq::empty()
    } else if adts_header_at(d, i) && adts_length_at(d, i) >= 7 {
        if i + adts_length_at(d, i) <= d.len() {
            seq![i] + adts_frame_starts(d, i + adts_length_at(d, i))
        } else {
            Seq::empty()
        }
    } else {
        adts_frame_starts(d, i + 1)
    }
}

/// The bytes of the frames that start at `starts`, concatenated.
pub open spec fn concat_frames(d: Seq<u8>, starts: Seq<int>) -> Seq<u8>
    decreases starts.len(),
{
    if starts.len() == 0 {
        Seq::empty()
    } else {
        d.subrange(starts[0], starts[0] + adts_length_at(d, starts[0])) + concat_frames(
            d,
            starts.drop_first(),
        )
    }
}

/// Copies every ADTS frame found in `data`, in order, into one buffer.
pub fn extract_adts_frames(data: &[u8]) -> (r: Vec<u8>)
    ensures
        r@ == adts_scan(data@, 0),
{
    let mut frames: Vec<u8> = Vec::new();
    let mut i: usize = 0;
    let n = data.len();
    while i <= n && n - i >= 7
        invariant
            n == data@.len(),
            i <= n,
            frames@ + adts_scan(data@, i as int) == adts_scan(data@, 0),
        decreases n - i,
    {
        if is_adts_header(data, i) {
            let frame_len = adts_frame_length(data, i);
            if frame_len >= 7 {
                if frame_len <= n - i {
                    let ghost before = frames@;
                    let mut k: usize = i;
                    while k < i + frame_len
                        invariant
                            n == data@.len(),
                            i <= k <= i + frame_len <= n,
                            frames@ == before + data@.subrange(i as int, k as int),
                        decreases i + frame_len - k,
                    {
                        frames.push(data[k]);
                        proof {
                            assert(data@.subrange(i as int, k + 1) == data@.subrange(
                                i as int,
                                k as int,
                            ).push(data@[k as int]));
                        }
                        k = k + 1;
                    }
                    proof {
                        assert(before + adts_scan(data@, i as int) == before + (data@.subrange(
                            i as int,
                            (i + frame_len) as int,
                        ) + adts_scan(data@, (i + frame_len) as int)));
                        assert(before + (data@.subrange(i as int, (i + frame_len) as int)
                            + adts_scan(data@, (i + frame_len) as int)) == frames@ + adts_scan(
                            data@,
                            (i + frame_len) as int,
                        ));
                    }
                    i = i + frame_len;
                    continue;
                }
                proof {
                    assert(frames@ + adts_scan(data@, i as int) == frames@);
                }
                return frames;
            }
        }
        i = i + 1;
    }
    proof {
        assert(adts_scan(data@, i as int) == Seq::<u8>::empty());
        assert(frames@ + Seq::<u8>::empty() == frames@);
    }
    frames
}

/// The frames that ADTS scanning emits start on valid headers, lie inside
/// the input one after another without overlapping, and their bytes,
/// concatenated, are the scan's output, which is never longer than the input.
pub proof fn lemma_adts_frames_well_formed(d: Seq<u8>, i: int)
    requires
        0 <= i,
    ensures
        adts_scan(d, i) == concat_frames(d, adts_frame_starts(d, i)),
        adts_scan(d, i).len() <= d.len() - i || adts_scan(d, i).len() == 0,
        forall|j: int|
            0 <= j < adts_frame_starts(d, i).len() ==> {
                let s = #[trigger] adts_frame_starts(d, i)[j];
                &&& i <= s
                &&& adts_header_at(d, s)
                &&& adts_length_at(d, s) >= 7
                &&& s + adts_length_at(d, s) <= d.len()
            },
        forall|j: int|
            0 <= j < adts_frame_starts(d, i).len() - 1 ==> {
                let s = #[trigger] adts_frame_starts(d, i)[j];
                s + adts_length_at(d, s) <= adts_frame_starts(d, i)[j + 1]
            },
    decreases d.len() - i,
{
    if i + 7 > d.len() {
    } else if adts_header_at(d, i) && adts_length_at(d, i) >= 7 {
        let n = adts_length_at(d, i);
        if i + n <= d.len() {
            lemma_adts_frames_well_formed(d, i + n);
            let rest = adts_frame_starts(d, i + n);
            let all = adts_frame_starts(d, i);
            assert(all == seq![i] + rest);
            assert(all.drop_first() == rest);
            assert forall|j: int| 0 <= j < all.len() - 1 implies {
                let s = #[trigger] all[j];
                s + adts_length_at(d, s) <= all[j + 1]
            } by {
                if j > 0 {
                    assert(all[j] == rest[j - 1]);
                    assert(all[j + 1] == rest[j]);
                } else {
                    assert(all[1] == rest[0]);
                }
            }
            assert forall|j: int| 0 <= j < all.len() implies {
                let s = #[trigger] all[j];
                &&& i <= s
                &&& adts_header_at(d, s)
                &&& adts_length_at(d, s) >= 7
                &&& s + adts_length_at(d, s) <= d.len()
            } by {
                if j > 0 {
                    assert(all[j] == rest[j - 1]);
                }
            }
        }
    } else {
        lemma_adts_frames_well_formed(d, i + 1);
    }
}

/// The offset of the sync byte in a packet of `size` bytes.
pub open spec fn sync_offset(size: int) -> int {
    if size == 192 {
        4
    } else {
        0
    }
}

/// The PID, payload unit start indicator and payload of a TS packet whose
/// sync byte sits at `off`; `None` for a short or unsynced packet, one
/// without payload, or one whose adaptation field fills it.
pub open spec fn ts_payload(pkt: Seq<u8>, off: int) -> Option<(u16, bool, Seq<u8>)> {
    if pkt.len() < off + 188 || pkt[off] != SYNC_BYTE {
        None
    } else {
        let adaptation = (pkt[off + 3] / 16) % 4;
        let start = if adaptation == 3 {
            off + 5 + pkt[off + 4]
        } else {
            off + 4
        };
        if adaptation == 0 || adaptation == 2 || start >= off + 188 {
            None
        } else {
            Some((pid_at(pkt, off + 1), (pkt[off + 1] / 64) % 2 == 1, pkt.subrange(start, off + 188)))
        }
    }
}

/// The packet of at most `size` bytes that starts at `pos`.
pub open spec fn chunk(d: Seq<u8>, size: int, pos: int) -> Seq<u8> {
    d.subrange(
        pos,
        if pos + size <= d.len() {
            pos + size
        } else {
            d.len() as int
        },
    )
}

/// The PMT PID and audio PID known after reading one more packet.
pub open spec fn psi_step(s: (Option<u16>, Option<u16>), pkt: Seq<u8>, off: int) -> (
    Option<u16>,
    Option<u16>,
) {
    match ts_payload(pkt, off) {
        None => s,
        Some((pid, pusi, p)) => if pid == 0 {
            (updated(s.0, pat_pmt_pid(p, pusi)), s.1)
        } else if s.0 == Some(pid) {
            (s.0, updated(s.1, pmt_audio_pid(p, pusi)))
        } else {
            s
        },
    }
}

/// The PSI state after reading, from state `s`, the packets from `pos` on.
pub open spec fn psi_from(d: Seq<u8>, size: int, pos: int, s: (Option<u16>, Option<u16>)) -> (
    Option<u16>,
    Option<u16>,
)
    decreases d.len() - pos,
{
    if size <= 0 || pos < 0 || pos >= d.len() {
        s
    } else if pos + size >= d.len() {
        psi_step(s, chunk(d, size, pos), sync_offset(size))
    } else {
        psi_from(d, size, pos + size, psi_step(s, chunk(d, size, pos), sync_offset(size)))
    }
}

/// The PES reassembly state: whether a PES has been entered, whether the
/// first audio payload came without a start indicator, the first timestamp
/// seen on a PES header, and the elementary-stream bytes gathered so far.
pub struct PesModel {
    pub started: bool,
    pub force_segment_start: bool,
    pub first_pts: Option<u64>,
    pub data: Seq<u8>,
}

/// The state before any audio packet.
pub open spec fn pes_initial() -> PesModel {
    PesModel { started: false, force_segment_start: false, first_pts: None, data: Seq::empty() }
}

/// One audio payload read into the PES state. On a start indicator a new PES
/// begins: with a valid header, its data after the header is kept and its
/// timestamp becomes the first one if none was seen; else the payload is
/// kept whole. Without one the payload continues the current PES, or, when
/// none was entered, begins one that forces timing to the segment start.
pub open spec fn pes_step(s: PesModel, pusi: bool, p: Seq<u8>) -> PesModel {
    if pusi {
        match pes_header_of(p) {
            Some((pts, start)) => PesModel {
                started: true,
                first_pts: if s.first_pts is None {
                    pts
                } else {
                    s.first_pts
                },
                data: s.data + p.subrange(start as int, p.len() as int),
                ..s
            },
            None => PesModel { started: true, data: s.data + p, ..s },
        }
    } else if s.started {
        PesModel { data: s.data + p, ..s }
    } else {
        PesModel { started: true, force_segment_start: true, data: s.data + p, ..s }
    }
}

/// The PES state after reading, from state `s`, the packets from `pos` on
/// that carry `audio`.
pub open spec fn pes_from(d: Seq<u8>, size: int, pos: int, audio: Option<u16>, s: PesModel) -> PesModel
    decreases d.len() - pos,
{
    if size <= 0 || pos < 0 || pos >= d.len() {
        s
    } else {
        let next = match ts_payload(chunk(d, size, pos), sync_offset(size)) {
            Some((pid, pusi, p)) => if audio == Some(pid) {
                pes_step(s, pusi, p)
            } else {
                s
            },
            None => s,
        };
        if pos + size >= d.len() {
            next
        } else {
            pes_from(d, size, pos + size, audio, next)
        }
    }
}

/// What demultiplexing a transport stream yields: the ADTS frames of the
/// audio PES data (or, when it holds none, of the raw input), the first
/// timestamp in 90 kHz ticks unless timing is forced to the segment start,
/// and that flag.
pub open spec fn adts_extraction_of(d: Seq<u8>, size: int) -> (Seq<u8>, Option<u64>, bool) {
    let audio = psi_from(d, size, 0, (None, None)).1;
    let s = pes_from(d, size, 0, audio, pes_initial());
    let frames = adts_scan(s.data, 0);
    (
        if frames.len() > 0 {
            frames
        } else {
            adts_scan(d, 0)
        },
        if s.force_segment_start {
            None
        } else {
            s.first_pts
        },
        s.force_segment_start,
    )
}

/// Incremental PES reassembly for one audio PID.
pub struct PesAssembler {
    pub started: bool,
    pub force_segment_start: bool,
    pub first_pts: Option<u64>,
    pub data: Vec<u8>,
}

impl View for PesAssembler {
    type V = PesModel;

    open spec fn view(&self) -> PesModel {
        PesModel {
            started: self.started,
            force_segment_start: self.force_segment_start,
            first_pts: self.first_pts,
            data: self.data@,
        }
    }
}

fn append_bytes(out: &mut Vec<u8>, src: &[u8])
    ensures
        final(out)@ == old(out)@ + src@,
{
    let ghost before = out@;
    let mut k: usize = 0;
    while k < src.len()
        invariant
            k <= src@.len(),
            out@ == before + src@.subrange(0, k as int),
        decreases src@.len() - k,
    {
        out.push(src[k]);
        proof {
            assert(src@.subrange(0, k + 1) == src@.subrange(0, k as int).push(src@[k as int]));
        }
        k = k + 1;
    }
    proof {
        assert(src@.subrange(0, src@.len() as int) == src@);
    }
}

impl PesAssembler {
    pub fn new() -> (r: Self)
        ensures
            r@ == pes_initial(),
    {
        PesAssembler { started: false, force_segment_start: false, first_pts: None, data: Vec::new() }
    }

    /// Reads one payload of the audio PID.
    pub fn push_payload(&mut self, pusi: bool, payload: &[u8])
        ensures
            final(self)@ == pes_step(old(self)@, pusi, payload@),
    {
        if pusi {
            self.started = true;
            match parse_pes_header(payload) {
                Some((pts, data_start)) => {
                    if self.first_pts.is_none() {
                        self.first_pts = pts;
                    }
                    let rest = &payload[data_start..payload.len()];
                    append_bytes(&mut self.data, rest);
                },
                None => {
                    append_bytes(&mut self.data, payload);
                },
            }
        } else {
            if !self.started {
                self.started = true;
                self.force_segment_start = true;
            }
            append_bytes(&mut self.data, payload);
        }
    }
}

/// The audio extracted from a transport stream.
pub struct AdtsExtraction {
    pub data: Vec<u8>,
    /// First presentation timestamp, in 90 kHz ticks.
    pub first_pts: Option<u64>,
    pub force_segment_start: bool,
}

fn ts_payload_exec(pkt: &[u8], off: usize) -> (r: Option<(u16, bool, usize)>)
    requires
        off <= 4,
    ensures
        match r {
            Some((pid, pusi, start)) => start < off + 188 <= pkt@.len() && ts_payload(
                pkt@,
                off as int,
            ) == Some((pid, pusi, pkt@.subrange(start as int, off + 188))),
            None => ts_payload(pkt@, off as int) is None,
        },
{
    if pkt.len() < off + 188 || pkt[off] != SYNC_BYTE {
        return None;
    }
    let b1 = pkt[off + 1];
    let pusi = (b1 / 64) % 2 == 1;
    let pid = read_pid(pkt, off + 1);
    let adaptation = (pkt[off + 3] / 16) % 4;
    if adaptation == 0 || adaptation == 2 {
        return None;
    }
    let start = if adaptation == 3 {
        off + 5 + pkt[off + 4] as usize
    } else {
        off + 4
    };
    if start >= off + 188 {
        return None;
    }
    Some((pid, pusi, start))
}

/// Demultiplexes the AAC audio of a transport stream of `packet_size`-byte
/// packets: finds the audio PID through the PAT and PMT, reassembles its PES
/// data and extracts the ADTS frames from it.
pub fn extract_adts_from_ts(data: &[u8], packet_size: usize) -> (r: AdtsExtraction)
    requires
        packet_size == 188 || packet_size == 192,
    ensures
        (r.data@, r.first_pts, r.force_segment_start) == adts_extraction_of(
            data@,
            packet_size as int,
        ),
{
    let n = data.len();
    let off: usize = if packet_size == 192 {
        4
    } else {
        0
    };
    let mut pmt_pid: Option<u16> = None;
    let mut audio_pid: Option<u16> = None;
    let mut pos: usize = 0;
    while pos < n
        invariant
            n == data@.len(),
            packet_size == 188 || packet_size == 192,
            off as int == sync_offset(packet_size as int),
            psi_from(data@, packet_size as int, pos as int, (pmt_pid, audio_pid)) == psi_from(
                data@,
                packet_size as int,
                0,
                (None, None),
            ),
        decreases n - pos,
    {
        let end = if n - pos >= packet_size {
            pos + packet_size
        } else {
            n
        };
        let packet = &data[pos..end];
        proof {
            assert(packet@ == chunk(data@, packet_size as int, pos as int));
        }
        match ts_payload_exec(packet, off) {
            Some((pid, pusi, start)) => {
                let payload = &packet[start..off + 188];
                if pid == 0 {
                    parse_pat(payload, pusi, &mut pmt_pid);
                } else if pmt_pid == Some(pid) {
                    parse_pmt(payload, pusi, &mut audio_pid);
                }
            },
            None => {},
        }
        if n - pos <= packet_size {
            pos = n;
        } else {
            pos = pos + packet_size;
        }
    }
    let mut pes = PesAssembler::new();
    let mut pos: usize = 0;
    while pos < n
        invariant
            n == data@.len(),
            packet_size == 188 || packet_size == 192,
            off as int == sync_offset(packet_size as int),
            audio_pid == psi_from(data@, packet_size as int, 0, (None, None)).1,
            pes_from(data@, packet_size as int, pos as int, audio_pid, pes@) == pes_from(
                data@,
                packet_size as int,
                0,
                audio_pid,
                pes_initial(),
            ),
        decreases n - pos,
    {
        let end = if n - pos >= packet_size {
            pos + packet_size
        } else {
            n
        };
        let packet = &data[pos..end];
        proof {
            assert(packet@ == chunk(data@, packet_size as int, pos as int));
        }
        match ts_payload_exec(packet, off) {
            Some((pid, pusi, start)) => {
                if audio_pid == Some(pid) {
                    let payload = &packet[start..off + 188];
                    pes.push_payload(pusi, payload);
                }
            },
            None => {},
        }
        if n - pos <= packet_size {
            pos = n;
        } else {
            pos = pos + packet_size;
        }
    }
    let mut frames = extract_adts_frames(pes.data.as_slice());
    if frames.len() == 0 {
        frames = extract_adts_frames(data);
    }
    let first_pts = if pes.force_segment_start {
        None
    } else {
        pes.first_pts
    };
    AdtsExtraction { data: frames, first_pts, force_segment_start: pes.force_segment_start }
}

/// An audio payload without a start indicator, read before any PES began,
/// forces timing to the segment start; once forced, it stays forced over
/// the rest of the stream, and demultiplexing then reports no timestamp.
pub proof fn lemma_forced_segment_start(
    d: Seq<u8>,
    size: int,
    pos: int,
    audio: Option<u16>,
    s: PesModel,
    p: Seq<u8>,
)
    ensures
        !s.started ==> pes_step(s, false, p).force_segment_start,
        s.force_segment_start ==> pes_from(d, size, pos, audio, s).force_segment_start,
        pes_from(d, 188, 0, psi_from(d, 188, 0, (None, None)).1, pes_initial()).force_segment_start
            ==> adts_extraction_of(d, 188).1 is None && adts_extraction_of(d, 188).2,
        pes_from(d, 192, 0, psi_from(d, 192, 0, (None, None)).1, pes_initial()).force_segment_start
            ==> adts_extraction_of(d, 192).1 is None && adts_extraction_of(d, 192).2,
    decreases d.len() - pos,
{
    if s.force_segment_start && !(size <= 0 || pos < 0 || pos >= d.len()) {
        let next = match ts_payload(chunk(d, size, pos), sync_offset(size)) {
            Some((pid, pusi, q)) => if audio == Some(pid) {
                pes_step(s, pusi, q)
            } else {
                s
            },
            None => s,
        };
        assert(next.force_segment_start);
        if pos + size < d.len() {
            lemma_forced_segment_start(d, size, pos + size, audio, next, p);
        }
    }
}

/// Packet `k` (of `size` bytes) carries a payload of the PID `audio`.
pub open spec fn carries_audio(d: Seq<u8>, size: int, k: int, audio: Option<u16>) -> bool {
    ts_payload(chunk(d, size, k * size), sync_offset(size)) matches Some((pid, _, _)) && audio
        == Some(pid)
}

proof fn lemma_skip_silent_packets(d: Seq<u8>, size: int, k: int, audio: Option<u16>)
    requires
        size > 0,
        0 <= k,
        k * size < d.len(),
        forall|j: int| 0 <= j < k ==> !carries_audio(d, size, j, audio),
    ensures
        pes_from(d, size, 0, audio, pes_initial()) == pes_from(d, size, k * size, audio, pes_initial()),
    decreases k,
{
    if k == 0 {
        assert(k * size == 0) by (nonlinear_arith)
            requires
                k == 0,
        ;
    } else {
        assert((k - 1) * size + size == k * size) by (nonlinear_arith);
        assert((k - 1) * size >= 0) by (nonlinear_arith)
            requires
                k >= 1,
                size > 0,
        ;
        lemma_skip_silent_packets(d, size, k - 1, audio);
        let q = (k - 1) * size;
        assert(!carries_audio(d, size, k - 1, audio));
        assert(q + size < d.len());
        assert(pes_from(d, size, q, audio, pes_initial()) == pes_from(
            d,
            size,
            q + size,
            audio,
            pes_initial(),
        ));
    }
}

/// When the first packet that carries audio has no payload unit start
/// indicator, demultiplexing forces timing to the segment start and reports
/// no timestamp.
pub proof fn lemma_first_audio_without_start(d: Seq<u8>, size: int, k: int)
    requires
        size == 188 || size == 192,
        0 <= k,
        k * size < d.len(),
        ({
            let audio = psi_from(d, size, 0, (None, None)).1;
            &&& carries_audio(d, size, k, audio)
            &&& !ts_payload(chunk(d, size, k * size), sync_offset(size))->Some_0.1
            &&& forall|j: int| 0 <= j < k ==> !carries_audio(d, size, j, audio)
        }),
    ensures
        adts_extraction_of(d, size).2,
        adts_extraction_of(d, size).1 is None,
{
    let audio = psi_from(d, size, 0, (None, None)).1;
    assert(k * size >= 0) by (nonlinear_arith)
        requires
            k >= 0,
            size > 0,
    ;
    lemma_skip_silent_packets(d, size, k, audio);
    let pos = k * size;
    let p = ts_payload(chunk(d, size, pos), sync_offset(size))->Some_0.2;
    let next = pes_step(pes_initial(), false, p);
    assert(next.force_segment_start);
    if pos + size < d.len() {
        lemma_forced_segment_start(d, size, pos + size, audio, next, p);
    }
}

proof fn lemma_started_state_persists(d: Seq<u8>, size: int, pos: int, audio: Option<u16>, s: PesModel)
    requires
        s.started,
        !s.force_segment_start,
        s.first_pts is Some,
    ensures
        !pes_from(d, size, pos, audio, s).force_segment_start,
        pes_from(d, size, pos, audio, s).first_pts == s.first_pts,
    decreases d.len() - pos,
{
    if !(size <= 0 || pos < 0 || pos >= d.len()) {
        let next = match ts_payload(chunk(d, size, pos), sync_offset(size)) {
            Some((pid, pusi, q)) => if audio == Some(pid) {
                pes_step(s, pusi, q)
            } else {
                s
            },
            None => s,
        };
        assert(next.started && !next.force_segment_start && next.first_pts == s.first_pts);
        if pos + size < d.len() {
            lemma_started_state_persists(d, size, pos + size, audio, next);
        }
    }
}

/// When the first packet that carries audio starts a PES whose header holds
/// timestamp `t`, demultiplexing reports `t` (in 90 kHz ticks) as the first
/// timestamp, with timing not forced to the segment start.
pub proof fn lemma_first_audio_with_timestamp(d: Seq<u8>, size: int, k: int, t: u64)
    requires
        size == 188 || size == 192,
        0 <= k,
        k * size < d.len(),
        ({
            let audio = psi_from(d, size, 0, (None, None)).1;
            let pay = ts_payload(chunk(d, size, k * size), sync_offset(size))->Some_0;
            &&& carries_audio(d, size, k, audio)
            &&& pay.1
            &&& pes_header_of(pay.2) matches Some((Some(pts), _)) && pts == t
            &&& forall|j: int| 0 <= j < k ==> !carries_audio(d, size, j, audio)
        }),
    ensures
        !adts_extraction_of(d, size).2,
        adts_extraction_of(d, size).1 == Some(t),
{
    let audio = psi_from(d, size, 0, (None, None)).1;
    assert(k * size >= 0) by (nonlinear_arith)
        requires
            k >= 0,
            size > 0,
    ;
    lemma_skip_silent_packets(d, size, k, audio);
    let pos = k * size;
    let p = ts_payload(chunk(d, size, pos), sync_offset(size))->Some_0.2;
    let next = pes_step(pes_initial(), true, p);
    assert(next.started && !next.force_segment_start && next.first_pts == Some(t));
    if pos + size < d.len() {
        lemma_started_state_persists(d, size, pos + size, audio, next);
    }
}

} // verus!
