use vstd::prelude::*;
use vstd::string::*;

use aes::cipher::{BlockDecryptMut, KeyIvInit};

use crate::bytes::{decode_hex, hex_bytes, is_hex_text, u32_to_u8x4, be_u32};
use crate::error::Error;
use crate::net::{join_url, resolved_url};
use crate::record::{slot_value, with_slot, ByteArrayRecorder};

verus! {

/// Request method.
#[derive(Debug, Clone, Copy, PartialEq, Eq, Structural)]
pub enum Method {
    GET,
    POST,
}

/// The attributes of an `#EXT-X-KEY` tag that the download needs.
#[derive(Debug, Clone, PartialEq, Eq)]
pub struct KeyTag {
    pub uri: Option<String>,
    pub iv: Option<String>,
}

/// One segment line of a media playlist, with the key tag just before it.
#[derive(Debug, Clone, PartialEq, Eq)]
pub struct MediaEntry {
    pub uri: String,
    pub key: Option<KeyTag>,
}

/// A parsed playlist.
#[derive(Debug, Clone, PartialEq, Eq)]
pub enum Playlist {
    /// A master playlist: the URIs of its variants, in playlist order.
    Master(Vec<String>),
    /// A media playlist: its media sequence number and its segments.
    Media(u64, Vec<MediaEntry>),
}

/// The playlist that `m3u8_rs::parse_playlist_res` reads from `content`.
pub uninterp spec fn parsed_playlist(content: Seq<u8>) -> Option<Playlist>;

/// The plaintext of `data` under AES-128-CBC with `key` and `iv` and PKCS#7
/// padding, if the data decrypts to well-padded text.
pub uninterp spec fn aes128_cbc_plain(key: Seq<u8>, iv: Seq<u8>, data: Seq<u8>) -> Option<Seq<u8>>;

#[verifier::external_type_specification]
#[verifier::external_body]
pub struct ExUnpadError(aes::cipher::block_padding::UnpadError);

/// Relies on `m3u8_rs::parse_playlist_res`: master or media playlist, with
/// the fields the download reads moved into the library's own types.
#[verifier::external_body]
fn parse_m3u8(content: &[u8]) -> (r: Option<Playlist>)
    ensures
        r == parsed_playlist(content@),
{
    match m3u8_rs::parse_playlist_res(content) {
        Ok(m3u8_rs::Playlist::MasterPlaylist(pl)) => Some(Playlist::Master(pl.variants.into_iter().map(|v| v.uri).collect())),
        Ok(m3u8_rs::Playlist::MediaPlaylist(pl)) => Some(Playlist::Media(pl.media_sequence, pl.segments.into_iter().map(|s| MediaEntry { uri: s.uri, key: s.key.map(|k| KeyTag { uri: k.uri, iv: k.iv }) }).collect())),
        Err(_) => None,
    }
}

/// Relies on `cbc::Decryptor<aes::Aes128>::decrypt_padded_vec_mut` with
/// `Pkcs7`, which fails when the data is not made of whole 16-byte blocks or
/// the padding is malformed, and otherwise returns the unpadded plaintext.
#[verifier::external_body]
fn cbc_decrypt(key: &[u8; 16], iv: &[u8; 16], buf: &[u8]) -> (r: Result<Vec<u8>, aes::cipher::block_padding::UnpadError>)
    ensures
        match r {
            Ok(v) => aes128_cbc_plain(key@, iv@, buf@) == Some(v@),
            Err(_) => aes128_cbc_plain(key@, iv@, buf@).is_none(),
        },
        buf@.len() % 16 != 0 ==> r is Err,
        r is Ok ==> r.unwrap()@.len() <= buf@.len(),
{
    cbc::Decryptor::<aes::Aes128>::new(key.into(), iv.into()).decrypt_padded_vec_mut::<aes::cipher::block_padding::Pkcs7>(buf)
}

/// Decrypt one AES-128-CBC, PKCS#7-padded segment.
pub fn decrypt_aes128(key: &[u8; 16], iv: &[u8; 16], buf: &[u8]) -> (r: Result<Vec<u8>, Error>)
    ensures
        r.is_ok() == aes128_cbc_plain(key@, iv@, buf@).is_some(),
        r.is_ok() ==> Some(r.unwrap()@) == aes128_cbc_plain(key@, iv@, buf@),
        r.is_err() ==> r == Err::<Vec<u8>, Error>(Error::AES128DecryptFail),
        buf@.len() % 16 != 0 ==> r.is_err(),
{
    match cbc_decrypt(key, iv, buf) {
        Ok(v) => Ok(v),
        Err(_) => Err(Error::AES128DecryptFail),
    }
}

/// One segment to download.
#[derive(Debug)]
pub struct M3u8Segment {
    /// Position of the segment in the download, from 0, dense.
    pub index: u64,
    pub method: Method,
    pub url: String,
    pub data: Option<String>,
    pub key: Option<[u8; 16]>,
    pub iv: Option<[u8; 16]>,
}

/// The body of a segment as it goes to the output: decrypted when the
/// segment has both a key and an IV, as fetched otherwise.
pub fn decode_segment(segment: &M3u8Segment, body: Vec<u8>) -> (r: Result<Vec<u8>, Error>)
    ensures
        match (segment.key, segment.iv) {
            (Some(k), Some(v)) => (r.is_ok() == aes128_cbc_plain(k@, v@, body@).is_some())
                && (r.is_ok() ==> Some(r.unwrap()@) == aes128_cbc_plain(k@, v@, body@))
                && (r.is_err() ==> r == Err::<Vec<u8>, Error>(Error::AES128DecryptFail)),
            _ => r.is_ok() && r.unwrap()@ == body@,
        },
{
    match (&segment.key, &segment.iv) {
        (Some(k), Some(v)) => decrypt_aes128(k, v, body.as_slice()),
        _ => Ok(body),
    }
}

/// `iv` is the IV of sequence number `n` when the key tag gives none:
/// twelve zero bytes, then the low 32 bits of `n` as a big-endian `u32`.
pub open spec fn is_default_iv(iv: Seq<u8>, n: int) -> bool {
    &&& iv.len() == 16
    &&& forall|i: int| 0 <= i < 12 ==> iv[i] == 0u8
    &&& be_u32(iv.subrange(12, 16)) == (n % 0x1_0000_0000) as u32
}

/// The IV of a segment whose key tag gives none: bytes 0..12 are zero and
/// bytes 12..16 hold the segment's sequence number as a big-endian `u32`.
pub fn default_iv(n: u64) -> (r: [u8; 16])
    ensures
        is_default_iv(r@, n as int),
{
    let low = (n % 0x1_0000_0000) as u32;
    let b = u32_to_u8x4(low);
    let mut iv: [u8; 16] = [0u8; 16];
    iv[12] = b[0];
    iv[13] = b[1];
    iv[14] = b[2];
    iv[15] = b[3];
    proof {
        assert(iv@.subrange(12, 16) =~= b@);
    }
    iv
}

/// The key tag in force for the `i`-th entry: its own, or else the last one
/// seen before it.
pub open spec fn effective_key(entries: Seq<MediaEntry>, i: int) -> Option<KeyTag>
    decreases i + 1,
{
    if i < 0 {
        None
    } else if entries[i].key.is_some() {
        entries[i].key
    } else {
        effective_key(entries, i - 1)
    }
}

/// The bytes of an explicit IV attribute: hex text after a two-character
/// prefix (`0x`), sixteen bytes long.
pub open spec fn explicit_iv(text: Seq<char>) -> Option<Seq<u8>> {
    if text.len() >= 2 && is_hex_text(text.skip(2)) && hex_bytes(text.skip(2)).len() == 16 {
        Some(hex_bytes(text.skip(2)))
    } else {
        None
    }
}

/// `iv` is the IV that key tag `k` gives to sequence number `n`.
pub open spec fn iv_of_key(k: KeyTag, n: int, iv: Seq<u8>) -> bool {
    match k.iv {
        Some(t) => explicit_iv(t@) == Some(iv),
        None => is_default_iv(iv, n),
    }
}

/// The `i`-th entry can be planned: its URL resolves, and so do the IV and
/// the key URL of the key tag in force.
pub open spec fn entry_ok(base: Seq<char>, entries: Seq<MediaEntry>, i: int) -> bool {
    &&& resolved_url(base, entries[i].uri@).is_some()
    &&& match effective_key(entries, i) {
        None => true,
        Some(k) => (k.iv.is_some() ==> explicit_iv(k.iv.unwrap()@).is_some()) && (k.uri.is_some()
            ==> resolved_url(base, k.uri.unwrap()@).is_some()),
    }
}

/// A segment planned from a media playlist, before its key is fetched.
#[derive(Debug)]
pub struct PlannedSegment {
    pub index: u64,
    pub url: String,
    /// Where to fetch the AES-128 key, for an encrypted segment.
    pub key_url: Option<String>,
    pub iv: Option<[u8; 16]>,
}

/// `p` is the plan of the `i`-th entry of a media playlist at `base`
/// whose media sequence number is `seq`, numbered from `first`.
pub open spec fn planned(base: Seq<char>, seq: u64, entries: Seq<MediaEntry>, first: u64, i: int, p: PlannedSegment) -> bool {
    &&& p.index == first + i
    &&& Some(p.url@) == resolved_url(base, entries[i].uri@)
    &&& match effective_key(entries, i) {
        Some(k) if k.uri.is_some() => p.key_url.is_some() && Some(p.key_url.unwrap()@) == resolved_url(base, k.uri.unwrap()@)
            && p.iv.is_some() && iv_of_key(k, seq + i, p.iv.unwrap()@),
        _ => p.key_url.is_none() && p.iv.is_none(),
    }
}

/// A segment planned under a key tag with a URI and no IV attribute gets
/// the IV of its sequence number: twelve zero bytes, then the low 32 bits of
/// `media_sequence + j`, big-endian.
pub proof fn default_iv_law(base: Seq<char>, seq: u64, entries: Seq<MediaEntry>, first: u64, j: int, p: PlannedSegment)
    requires
        planned(base, seq, entries, first, j, p),
        effective_key(entries, j).is_some(),
        effective_key(entries, j).unwrap().uri.is_some(),
        effective_key(entries, j).unwrap().iv.is_none(),
    ensures
        p.iv.is_some(),
        forall|i: int| 0 <= i < 12 ==> p.iv.unwrap()@[i] == 0u8,
        be_u32(p.iv.unwrap()@.subrange(12, 16)) == ((seq + j) % 0x1_0000_0000) as u32,
{
}

fn explicit_iv_of(text: &String) -> (r: Result<[u8; 16], Error>)
    ensures
        r.is_ok() == explicit_iv(text@).is_some(),
        r.is_ok() ==> Some(r.unwrap()@) == explicit_iv(text@),
{
    let t = text.as_str();
    let n = t.unicode_len();
    if n < 2 {
        return Err(Error::IsNotNumber(text.clone()));
    }
    let hex = t.substring_char(2, n);
    proof {
        assert(hex@ =~= text@.skip(2));
    }
    let bytes = match decode_hex(hex) {
        Ok(b) => b,
        Err(e) => {
            return Err(e);
        },
    };
    if bytes.len() != 16 {
        return Err(Error::IsNotNumber(text.clone()));
    }
    let mut iv: [u8; 16] = [0u8; 16];
    let mut i: usize = 0;
    while i < 16
        invariant
            i <= 16,
            bytes@.len() == 16,
            iv@.len() == 16,
            forall|j: int| 0 <= j < i ==> iv@[j] == bytes@[j],
        decreases 16 - i,
    {
        iv[i] = bytes[i];
        i = i + 1;
    }
    proof {
        assert(iv@ =~= bytes@);
    }
    Ok(iv)
}

/// Plan the segments of a media playlist fetched from `base_url`, with media
/// sequence number `media_sequence`, numbering them from `first_index`.
/// Each segment gets its resolved URL and, under a key tag with a URI, the
/// resolved key URL and the IV: the explicit one, or the default one of its
/// sequence number.
pub fn plan_segments(base_url: &str, media_sequence: u64, entries: &Vec<MediaEntry>, first_index: u64) -> (r: Result<Vec<PlannedSegment>, Error>)
    ensures
        r.is_ok() == (first_index + entries@.len() <= u64::MAX && forall|i: int| 0 <= i < entries@.len() ==> #[trigger] entry_ok(base_url@, entries@, i)),
        r.is_ok() ==> r.unwrap()@.len() == entries@.len() && forall|i: int| 0 <= i < entries@.len()
            ==> #[trigger] planned(base_url@, media_sequence, entries@, first_index, i, r.unwrap()@[i]),
{
    let n = entries.len();
    if n as u64 > u64::MAX - first_index {
        return Err(Error::M3U8ParseFail);
    }
    let mut out: Vec<PlannedSegment> = Vec::new();
    let mut key_pos: Option<usize> = None;
    let mut i: usize = 0;
    while i < n
        invariant
            n == entries@.len(),
            first_index + n <= u64::MAX,
            i <= n,
            out@.len() == i,
            forall|j: int| 0 <= j < i ==> #[trigger] entry_ok(base_url@, entries@, j),
            forall|j: int| 0 <= j < i ==> #[trigger] planned(base_url@, media_sequence, entries@, first_index, j, out@[j]),
            match key_pos {
                Some(p) => p < i && entries@[p as int].key.is_some() && effective_key(entries@, i - 1) == entries@[p as int].key,
                None => effective_key(entries@, i - 1).is_none(),
            },
        decreases n - i,
    {
        let e = &entries[i];
        let url = match join_url(base_url, e.uri.as_str()) {
            Ok(u) => u,
            Err(err) => {
                proof {
                    assert(!entry_ok(base_url@, entries@, i as int));
                }
                return Err(err);
            },
        };
        if e.key.is_some() {
            key_pos = Some(i);
        }
        let low = ((media_sequence % 0x1_0000_0000) + (i as u64 % 0x1_0000_0000)) % 0x1_0000_0000;
        proof {
            vstd::arithmetic::div_mod::lemma_add_mod_noop(media_sequence as int, i as int, 0x1_0000_0000);
            assert(low % 0x1_0000_0000 == (media_sequence + i) % 0x1_0000_0000);
        }
        let mut key_url: Option<String> = None;
        let mut iv: Option<[u8; 16]> = None;
        match key_pos {
            Some(p) => {
                match &entries[p].key {
                    Some(k) => {
                        let v = match &k.iv {
                            Some(t) => match explicit_iv_of(t) {
                                Ok(v) => v,
                                Err(err) => {
                                    proof {
                                        assert(effective_key(entries@, i as int) == entries@[p as int].key);
                                        assert(!entry_ok(base_url@, entries@, i as int));
                                    }
                                    return Err(err);
                                },
                            },
                            None => default_iv(low),
                        };
                        match &k.uri {
                            Some(u) => {
                                let ku = match join_url(base_url, u.as_str()) {
                                    Ok(x) => x,
                                    Err(err) => {
                                        proof {
                                            assert(effective_key(entries@, i as int) == entries@[p as int].key);
                                            assert(!entry_ok(base_url@, entries@, i as int));
                                        }
                                        return Err(err);
                                    },
                                };
                                key_url = Some(ku);
                                iv = Some(v);
                            },
                            None => {},
                        }
                    },
                    None => {},
                }
            },
            None => {},
        }
        out.push(PlannedSegment { index: first_index + i as u64, url, key_url, iv });
        proof {
            assert(entry_ok(base_url@, entries@, i as int));
            assert(planned(base_url@, media_sequence, entries@, first_index, i as int, out@[i as int]));
        }
        i = i + 1;
    }
    Ok(out)
}

/// What one fetched playlist leads to.
#[derive(Debug)]
pub enum PlaylistStep {
    /// A master playlist: the resolved variant URLs, last variant first, to
    /// be pushed on the stack of playlists to fetch so that the first
    /// variant is fetched first.
    Variants(Vec<String>),
    /// A media playlist: its planned segments.
    Segments(Vec<PlannedSegment>),
}

/// The resolved URLs of `uris` on a page at `base`, in reverse order.
pub fn resolve_variants(base_url: &str, uris: &Vec<String>) -> (r: Result<Vec<String>, Error>)
    ensures
        r.is_ok() == forall|i: int| 0 <= i < uris@.len() ==> (#[trigger] resolved_url(base_url@, uris@[i]@)).is_some(),
        r.is_ok() ==> r.unwrap()@.len() == uris@.len() && forall|j: int| 0 <= j < uris@.len()
            ==> Some((#[trigger] r.unwrap()@[j])@) == resolved_url(base_url@, uris@[uris@.len() - 1 - j]@),
{
    let n = uris.len();
    let mut out: Vec<String> = Vec::new();
    let mut k: usize = n;
    while k > 0
        invariant
            k <= n,
            n == uris@.len(),
            out@.len() == n - k,
            forall|i: int| k <= i < n ==> (#[trigger] resolved_url(base_url@, uris@[i]@)).is_some(),
            forall|j: int| 0 <= j < n - k ==> Some((#[trigger] out@[j])@) == resolved_url(base_url@, uris@[n - 1 - j]@),
        decreases k,
    {
        k = k - 1;
        let u = match join_url(base_url, uris[k].as_str()) {
            Ok(u) => u,
            Err(e) => {
                return Err(e);
            },
        };
        out.push(u);
    }
    Ok(out)
}

/// Handle one playlist fetched from `base_url`: a newline is added to its
/// content, which is then parsed; a master playlist gives its variants, a
/// media playlist its segments numbered from `first_index`.
pub fn playlist_step(base_url: &str, content: Vec<u8>, first_index: u64) -> (r: Result<PlaylistStep, Error>)
    ensures
        match parsed_playlist(content@.push(10u8)) {
            None => r == Err::<PlaylistStep, Error>(Error::M3U8ParseFail),
            Some(Playlist::Master(uris)) => (r.is_ok() == forall|i: int| 0 <= i < uris@.len()
                ==> (#[trigger] resolved_url(base_url@, uris@[i]@)).is_some()) && (r.is_ok() ==> (r matches Ok(PlaylistStep::Variants(v))
                && v@.len() == uris@.len() && forall|j: int| 0 <= j < uris@.len()
                ==> Some((#[trigger] v@[j])@) == resolved_url(base_url@, uris@[uris@.len() - 1 - j]@))),
            Some(Playlist::Media(seq, entries)) => (r.is_ok() == (first_index + entries@.len() <= u64::MAX
                && forall|i: int| 0 <= i < entries@.len() ==> #[trigger] entry_ok(base_url@, entries@, i)))
                && (r.is_ok() ==> (r matches Ok(PlaylistStep::Segments(v)) && v@.len() == entries@.len()
                && forall|i: int| 0 <= i < entries@.len() ==> #[trigger] planned(base_url@, seq, entries@, first_index, i, v@[i]))),
        },
{
    let mut content = content;
    content.push(10u8);
    match parse_m3u8(content.as_slice()) {
        None => Err(Error::M3U8ParseFail),
        Some(Playlist::Master(uris)) => match resolve_variants(base_url, &uris) {
            Ok(v) => Ok(PlaylistStep::Variants(v)),
            Err(e) => Err(e),
        },
        Some(Playlist::Media(seq, entries)) => match plan_segments(base_url, seq, &entries, first_index) {
            Ok(v) => Ok(PlaylistStep::Segments(v)),
            Err(e) => Err(e),
        },
    }
}

/// An AES-128 key fetched from a key URL: exactly sixteen bytes.
pub fn key_from_bytes(body: &Vec<u8>) -> (r: Result<[u8; 16], Error>)
    ensures
        r.is_ok() == (body@.len() == 16),
        r.is_ok() ==> r.unwrap()@ == body@,
{
    if body.len() != 16 {
        return Err(Error::NetError(String::from_str("an AES-128 key is not 16 bytes long")));
    }
    let mut key: [u8; 16] = [0u8; 16];
    let mut i: usize = 0;
    while i < 16
        invariant
            i <= 16,
            body@.len() == 16,
            key@.len() == 16,
            forall|j: int| 0 <= j < i ==> key@[j] == body@[j],
        decreases 16 - i,
    {
        key[i] = body[i];
        i = i + 1;
    }
    proof {
        assert(key@ =~= body@);
    }
    Ok(key)
}

/// The key already fetched from `url`, if any.
pub fn find_key(keys: &Vec<(String, [u8; 16])>, url: &str) -> (r: Option<[u8; 16]>)
    ensures
        r.is_some() == exists|i: int| 0 <= i < keys@.len() && (#[trigger] keys@[i]).0@ == url@,
        r.is_some() ==> exists|i: int| 0 <= i < keys@.len() && (#[trigger] keys@[i]).0@ == url@ && keys@[i].1 == r.unwrap(),
{
    let mut i: usize = 0;
    while i < keys.len()
        invariant
            i <= keys@.len(),
            forall|j: int| 0 <= j < i ==> (#[trigger] keys@[j]).0@ != url@,
        decreases keys@.len() - i,
    {
        if str_eq(keys[i].0.as_str(), url) {
            return Some(keys[i].1);
        }
        i = i + 1;
    }
    None
}

fn str_eq(a: &str, b: &str) -> (r: bool)
    ensures
        r == (a@ == b@),
{
    let n = a.unicode_len();
    if n != b.unicode_len() {
        return false;
    }
    let mut i: usize = 0;
    while i < n
        invariant
            n == a@.len(),
            n == b@.len(),
            i <= n,
            forall|j: int| 0 <= j < i ==> a@[j] == b@[j],
        decreases n - i,
    {
        if a.get_char(i) != b.get_char(i) {
            return false;
        }
        i = i + 1;
    }
    assert(a@ =~= b@);
    true
}

impl M3u8Segment {
    /// The segment to download for `plan`, with the key fetched from its key
    /// URL; a segment without key URL carries neither key nor IV.
    pub fn from_plan(plan: PlannedSegment, key: Option<[u8; 16]>) -> (r: M3u8Segment)
        ensures
            r.index == plan.index,
            r.method == Method::GET,
            r.url == plan.url,
            r.data.is_none(),
            plan.key_url.is_some() ==> r.key == key && r.iv == plan.iv,
            plan.key_url.is_none() ==> r.key.is_none() && r.iv.is_none(),
    {
        let has_key = plan.key_url.is_some();
        M3u8Segment {
            index: plan.index,
            method: Method::GET,
            url: plan.url,
            data: None,
            key: if has_key { key } else { None },
            iv: if has_key { plan.iv } else { None },
        }
    }
}

/// Reconcile the segment list of a playlist with the segment ledger and
/// give the stack of segments still to fetch, the first one on top.
///
/// With a ledger read from disk, its segment count must be the playlist's
/// (and its completed count no larger), and the completed prefix is dropped.
/// Without ledger, a fresh one records the segment count.
pub fn plan_m3u8(segments: Vec<M3u8Segment>, ledger_exists: bool, ledger: &mut ByteArrayRecorder) -> (r: Result<Vec<M3u8Segment>, Error>)
    ensures
        ledger_exists ==> final(ledger)@ == old(ledger)@,
        ledger_exists && (slot_value(old(ledger)@, 0) != segments@.len() || slot_value(old(ledger)@, 1) > slot_value(old(ledger)@, 0))
            ==> r == Err::<Vec<M3u8Segment>, Error>(Error::PartsAreNotConsistent),
        ledger_exists && slot_value(old(ledger)@, 0) == segments@.len() && slot_value(old(ledger)@, 1) <= slot_value(old(ledger)@, 0)
            ==> r.is_ok() && r.unwrap()@ == segments@.subrange(slot_value(old(ledger)@, 1) as int, segments@.len() as int).reverse(),
        !ledger_exists ==> final(ledger)@ == with_slot(Seq::empty(), 0, segments@.len() as u64) && r.is_ok()
            && r.unwrap()@ == segments@.reverse(),
{
    let n = segments.len();
    let mut skip: usize = 0;
    if ledger_exists {
        let total = ledger.index(0);
        let done = ledger.index(1);
        if total != n as u64 || done > total {
            return Err(Error::PartsAreNotConsistent);
        }
        skip = done as usize;
    } else {
        *ledger = ByteArrayRecorder::new(Vec::new());
        ledger.write(0, n as u64);
    }
    let mut segments = segments;
    let ghost all = segments@;
    let mut stack: Vec<M3u8Segment> = Vec::new();
    while segments.len() > skip
        invariant
            skip <= n,
            n == all.len(),
            skip <= segments@.len() <= n,
            segments@ == all.take(segments@.len() as int),
            stack@ == all.subrange(segments@.len() as int, n as int).reverse(),
        decreases segments@.len(),
    {
        let s = segments.pop().unwrap();
        stack.push(s);
        proof {
            assert(stack@ =~= all.subrange(segments@.len() as int, n as int).reverse());
        }
    }
    Ok(stack)
}

/// The order in which segments reach the output: a worker holding a
/// segment may hand it over only when its index is the next one expected.
pub struct SegmentOrder {
    next: u64,
}

impl SegmentOrder {
    pub closed spec fn spec_next(&self) -> u64 {
        self.next
    }

    /// Expect the segment `first` first.
    pub fn new(first: u64) -> (r: SegmentOrder)
        ensures
            r.spec_next() == first,
    {
        SegmentOrder { next: first }
    }

    /// The index expected next.
    pub fn next(&self) -> (r: u64)
        ensures
            r == self.spec_next(),
    {
        self.next
    }

    /// Whether segment `index` may be handed over now; when it may, the
    /// next one is expected from then on.  A worker told no waits and asks
    /// again.
    pub fn try_release(&mut self, index: u64) -> (r: bool)
        requires
            old(self).spec_next() < u64::MAX,
        ensures
            r == (index == old(self).spec_next()),
            r ==> final(self).spec_next() == old(self).spec_next() + 1,
            !r ==> final(self).spec_next() == old(self).spec_next(),
    {
        if index == self.next {
            self.next = self.next + 1;
            true
        } else {
            false
        }
    }
}

/// The indices handed over when workers ask, in turn, with the indices of
/// `asks`, starting from `next`.
pub open spec fn released(next: int, asks: Seq<u64>) -> Seq<int>
    decreases asks.len(),
{
    if asks.len() == 0 {
        seq![]
    } else {
        let before = released(next, asks.drop_last());
        if asks.last() == next + before.len() {
            before.push(asks.last() as int)
        } else {
            before
        }
    }
}

/// Whatever order the workers finish and ask in, the segments reach the
/// output one after the other from the first expected index on: the
/// handed-over indices are `next, next + 1, …`, so strictly increasing.
pub proof fn release_order_law(next: int, asks: Seq<u64>)
    ensures
        forall|k: int| 0 <= k < released(next, asks).len() ==> #[trigger] released(next, asks)[k] == next + k,
        forall|a: int, b: int| 0 <= a < b < released(next, asks).len() ==> (#[trigger] released(next, asks)[a]) < (#[trigger] released(next, asks)[b]),
    decreases asks.len(),
{
    if asks.len() > 0 {
        release_order_law(next, asks.drop_last());
        let before = released(next, asks.drop_last());
        let r = released(next, asks);
        assert forall|k: int| 0 <= k < r.len() implies #[trigger] r[k] == next + k by {
            if k < before.len() {
                assert(r[k] == before[k]);
            }
        }
    }
}

/// Where the segments of an HLS download land in the output: each one is
/// written where the previous one ended.
pub struct SegmentProgress {
    completed: u64,
    seek: u64,
}

impl SegmentProgress {
    pub closed spec fn spec_completed(&self) -> u64 {
        self.completed
    }

    pub closed spec fn spec_seek(&self) -> u64 {
        self.seek
    }

    /// Resume after `completed` segments that filled `seek` bytes.
    pub fn new(completed: u64, seek: u64) -> (r: SegmentProgress)
        ensures
            r.spec_completed() == completed,
            r.spec_seek() == seek,
    {
        SegmentProgress { completed, seek }
    }

    pub fn completed(&self) -> (r: u64)
        ensures
            r == self.spec_completed(),
    {
        self.completed
    }

    pub fn seek(&self) -> (r: u64)
        ensures
            r == self.spec_seek(),
    {
        self.seek
    }

    /// Segment `index` of `len` bytes arrived: it is written at the returned
    /// offset, and the ledger's completed count and offset become
    /// `completed()` and `seek()`.
    pub fn on_segment(&mut self, index: u64, len: u64) -> (r: u64)
        requires
            old(self).spec_seek() + len <= u64::MAX,
            index < u64::MAX,
        ensures
            r == old(self).spec_seek(),
            final(self).spec_seek() == old(self).spec_seek() + len,
            final(self).spec_completed() == index + 1,
    {
        let at = self.seek;
        self.seek = self.seek + len;
        self.completed = index + 1;
        at
    }
}

/// The offsets at which segments of lengths `lens` are written, from `seek`.
pub open spec fn write_offsets(seek: int, lens: Seq<u64>) -> Seq<int>
    decreases lens.len(),
{
    if lens.len() == 0 {
        seq![]
    } else {
        let before = write_offsets(seek, lens.drop_last());
        before.push(seek + lens_sum(lens.drop_last()))
    }
}

pub open spec fn lens_sum(lens: Seq<u64>) -> int
    decreases lens.len(),
{
    if lens.len() == 0 {
        0
    } else {
        lens_sum(lens.drop_last()) + lens.last()
    }
}

/// Segments that are not empty are written at strictly increasing offsets,
/// each one right after the previous one.
pub proof fn write_offsets_law(seek: int, lens: Seq<u64>)
    requires
        forall|i: int| 0 <= i < lens.len() ==> #[trigger] lens[i] > 0,
    ensures
        write_offsets(seek, lens).len() == lens.len(),
        forall|i: int| 0 <= i < lens.len() - 1 ==> #[trigger] write_offsets(seek, lens)[i + 1] == write_offsets(seek, lens)[i] + lens[i],
        forall|a: int, b: int| 0 <= a < b < lens.len() ==> (#[trigger] write_offsets(seek, lens)[a]) < (#[trigger] write_offsets(seek, lens)[b]),
    decreases lens.len(),
{
    if lens.len() > 0 {
        let d = lens.drop_last();
        assert forall|i: int| 0 <= i < d.len() implies #[trigger] d[i] > 0 by {
            assert(d[i] == lens[i]);
        }
        write_offsets_law(seek, d);
        let w = write_offsets(seek, lens);
        let wd = write_offsets(seek, d);
        assert forall|i: int| 0 <= i < lens.len() - 1 implies #[trigger] w[i + 1] == w[i] + lens[i] by {
            if i + 1 < d.len() {
                assert(w[i + 1] == wd[i + 1] && w[i] == wd[i] && d[i] == lens[i]);
            } else {
                assert(d.drop_last() =~= lens.drop_last().drop_last());
                if d.len() > 0 {
                    assert(wd =~= write_offsets(seek, d.drop_last()).push(seek + lens_sum(d.drop_last())));
                }
            }
        }
        if d.len() > 0 {
            lemma_offsets_below(seek, d);
        }
        assert forall|a: int, b: int| 0 <= a < b < lens.len() implies (#[trigger] w[a]) < (#[trigger] w[b]) by {
            if b < d.len() {
                assert(w[a] == wd[a] && w[b] == wd[b]);
            } else {
                assert(w[a] == wd[a]);
            }
        }
    }
}

proof fn lemma_offsets_below(seek: int, lens: Seq<u64>)
    requires
        forall|i: int| 0 <= i < lens.len() ==> #[trigger] lens[i] > 0,
    ensures
        forall|i: int| 0 <= i < lens.len() ==> #[trigger] write_offsets(seek, lens)[i] < seek + lens_sum(lens),
        write_offsets(seek, lens).len() == lens.len(),
    decreases lens.len(),
{
    if lens.len() > 0 {
        let d = lens.drop_last();
        assert forall|i: int| 0 <= i < d.len() implies #[trigger] d[i] > 0 by {
            assert(d[i] == lens[i]);
        }
        lemma_offsets_below(seek, d);
        lemma_sum_nonneg(d);
        assert(lens.last() > 0) by {
            assert(lens[lens.len() - 1] > 0);
        }
    }
}

proof fn lemma_sum_nonneg(lens: Seq<u64>)
    ensures
        lens_sum(lens) >= 0,
    decreases lens.len(),
{
    if lens.len() > 0 {
        lemma_sum_nonneg(lens.drop_last());
    }
}

} // verus!
