//! Theme ("skin") engine helpers: gallery version ids, script paths handed
//! to PowerShell and the decoding of what PowerShell prints.
use vstd::prelude::*;

use crate::text::{chars_of, has_prefix, str_eq, string_from, trim, trim_chars, utf8_len, utf8_len_exceeds};

verus! {

/// The text a sequence of UTF-16 code units encodes, each unpaired
/// surrogate read as U+FFFD: a unit outside the surrogate range is its own
/// character, a high surrogate followed by a low one is the character they
/// pair to, and any other surrogate is replaced.
pub open spec fn utf16_lossy(units: Seq<u16>) -> Seq<char>
    decreases units.len(),
{
    if units.len() == 0 {
        seq![]
    } else {
        let u = units[0] as int;
        if u < 0xD800 || u > 0xDFFF {
            seq![u as char] + utf16_lossy(units.drop_first())
        } else if u <= 0xDBFF && units.len() >= 2 && 0xDC00 <= units[1] <= 0xDFFF {
            seq![(0x10000 + (u - 0xD800) * 0x400 + (units[1] - 0xDC00)) as char] + utf16_lossy(
                units.subrange(2, units.len() as int),
            )
        } else {
            seq!['\u{FFFD}'] + utf16_lossy(units.drop_first())
        }
    }
}

/// The text `bytes` encode as UTF-8; `None` when they are not valid UTF-8.
pub open spec fn utf8_text(bytes: Seq<u8>) -> Option<Seq<char>> {
    if vstd::utf8::valid_utf8(bytes) {
        Some(vstd::utf8::decode_utf8(bytes))
    } else {
        None
    }
}

/// What `encoding_rs::GBK.decode` yields for `bytes` (with its BOM sniffing
/// and replacement of malformed sequences).
pub uninterp spec fn gbk_decoded(bytes: Seq<u8>) -> Seq<char>;

/// Calls `String::from_utf16_lossy`, which decodes UTF-16 and replaces
/// each unpaired surrogate with U+FFFD (as `char::decode_utf16` reports one
/// error per such unit).
#[verifier::external_body]
fn decode_utf16_lossy(units: &[u16]) -> (r: String)
    ensures
        r@ == utf16_lossy(units@),
{
    String::from_utf16_lossy(units)
}

/// Calls `std::str::from_utf8`, keeping the text and dropping the error: it
/// accepts exactly the valid UTF-8 byte sequences, and the text is what they
/// encode.
#[verifier::external_body]
fn decode_utf8(bytes: &[u8]) -> (r: Option<String>)
    ensures
        match r {
            Some(s) => utf8_text(bytes@) == Some(s@),
            None => utf8_text(bytes@) is None,
        },
{
    match std::str::from_utf8(bytes) {
        Ok(text) => Some(text.to_string()),
        Err(_) => None,
    }
}

/// Calls `encoding_rs::GBK.decode` and keeps the decoded text. `decode` panics
/// only when its output size computation overflows `usize`, which the bound
/// on the input rules out.
#[verifier::external_body]
fn decode_gbk(bytes: &[u8]) -> (r: String)
    requires
        bytes@.len() <= usize::MAX / 8,
    ensures
        r@ == gbk_decoded(bytes@),
{
    let (decoded, _, _) = encoding_rs::GBK.decode(bytes);
    decoded.into_owned()
}

pub open spec fn is_lower_or_digit(c: char) -> bool {
    ('a' <= c && c <= 'z') || ('0' <= c && c <= '9')
}

/// A gallery version id, once trimmed, is 12 to 68 bytes long, starts with
/// `ver_` and continues with lower-case ASCII letters and digits only.
pub open spec fn gallery_version_id_ok(t: Seq<char>) -> bool {
    &&& 12 <= utf8_len(t) <= 68
    &&& has_prefix(t, "ver_"@)
    &&& forall|i: int| 4 <= i < t.len() ==> is_lower_or_digit(#[trigger] t[i])
}

/// Message for a rejected gallery version id.
pub open spec fn invalid_gallery_version_message() -> Seq<char> {
    "DreamSkin 主题版本编号无效。"@
}

/// Checks a gallery version id and returns it trimmed.
pub fn validated_gallery_version_id(version_id: String) -> (r: Result<String, String>)
    ensures
        gallery_version_id_ok(trim(version_id@)) ==> (r matches Ok(v) && v@ == trim(version_id@)),
        !gallery_version_id_ok(trim(version_id@)) ==> (r matches Err(e) && e@
            == invalid_gallery_version_message()),
{
    let t = trim_chars(version_id.as_str());
    let too_short = !utf8_len_exceeds(t.as_slice(), 11);
    let too_long = utf8_len_exceeds(t.as_slice(), 68);
    proof {
        reveal_strlit("ver_");
    }
    if too_short || too_long || !crate::text::starts_with_str(t.as_slice(), "ver_") {
        return Err("DreamSkin 主题版本编号无效。".to_string());
    }
    let mut i: usize = 4;
    while i < t.len()
        invariant
            4 <= i <= t@.len(),
            t@ == trim(version_id@),
            forall|j: int| 4 <= j < i ==> is_lower_or_digit(#[trigger] t@[j]),
        decreases t@.len() - i,
    {
        let c = t[i];
        if !(('a' <= c && c <= 'z') || ('0' <= c && c <= '9')) {
            assert(!is_lower_or_digit(t@[i as int]));
            return Err("DreamSkin 主题版本编号无效。".to_string());
        }
        i = i + 1;
    }
    Ok(string_from(t.as_slice()))
}

/// The Win32 verbatim prefix of a UNC path.
pub open spec fn verbatim_unc_prefix() -> Seq<char> {
    "\\\\?\\UNC\\"@
}

/// The Win32 verbatim prefix of a drive path.
pub open spec fn verbatim_prefix() -> Seq<char> {
    "\\\\?\\"@
}

/// A path as PowerShell's `Join-Path` can use it: verbatim UNC paths become
/// `\\server\share\..`, verbatim drive paths lose their prefix, others stay.
pub open spec fn powershell_path(raw: Seq<char>) -> Seq<char> {
    if has_prefix(raw, verbatim_unc_prefix()) {
        "\\\\"@ + raw.skip(verbatim_unc_prefix().len() as int)
    } else if has_prefix(raw, verbatim_prefix()) {
        raw.skip(verbatim_prefix().len() as int)
    } else {
        raw
    }
}

/// Rewrites a script path (as text) so that PowerShell resolves sibling files.
pub fn powershell_compatible_path(raw: &str) -> (r: String)
    ensures
        r@ == powershell_path(raw@),
{
    let v = chars_of(raw);
    let unc = chars_of("\\\\?\\UNC\\");
    let plain = chars_of("\\\\?\\");
    if crate::text::occurs_at_exec(v.as_slice(), unc.as_slice(), 0) {
        let rest = crate::text::slice_to_vec(v.as_slice(), unc.len(), v.len());
        let mut out = "\\\\".to_string();
        out.append(string_from(rest.as_slice()).as_str());
        assert(rest@ =~= v@.skip(unc@.len() as int));
        return out;
    }
    if crate::text::occurs_at_exec(v.as_slice(), plain.as_slice(), 0) {
        let rest = crate::text::slice_to_vec(v.as_slice(), plain.len(), v.len());
        assert(rest@ =~= v@.skip(plain@.len() as int));
        return string_from(rest.as_slice());
    }
    raw.to_string()
}

/// Number of the first `n` byte pairs of `b` whose second byte is zero.
pub open spec fn zero_high_pairs(b: Seq<u8>, n: int) -> nat
    decreases n,
{
    if n <= 0 {
        0
    } else {
        zero_high_pairs(b, n - 1) + (if b[2 * (n - 1) + 1] == 0 {
            1nat
        } else {
            0nat
        })
    }
}

pub open spec fn min_int(a: int, b: int) -> int {
    if a <= b {
        a
    } else {
        b
    }
}

pub open spec fn has_utf16le_bom(b: Seq<u8>) -> bool {
    b.len() >= 2 && b[0] == 0xff && b[1] == 0xfe
}

/// PowerShell output is taken for UTF-16LE when it starts with that byte
/// order mark or when more than 8 of its first 24 byte pairs end in a zero.
pub open spec fn looks_utf16(b: Seq<u8>) -> bool {
    has_utf16le_bom(b) || zero_high_pairs(b, min_int(24, (b.len() / 2) as int)) > 8
}

/// Whether `bytes` should be decoded as UTF-16LE.
pub fn looks_like_utf16(bytes: &[u8]) -> (r: bool)
    ensures
        r == looks_utf16(bytes@),
{
    if bytes.len() >= 2 && bytes[0] == 0xff && bytes[1] == 0xfe {
        return true;
    }
    let pairs = if bytes.len() / 2 < 24 {
        bytes.len() / 2
    } else {
        24
    };
    let mut count: usize = 0;
    let mut k: usize = 0;
    while k < pairs
        invariant
            pairs == min_int(24, (bytes@.len() / 2) as int),
            k <= pairs,
            count == zero_high_pairs(bytes@, k as int),
            count <= k,
        decreases pairs - k,
    {
        if bytes[2 * k + 1] == 0 {
            count = count + 1;
        }
        k = k + 1;
    }
    count > 8
}

/// The little-endian code units of `b` after its first `start` bytes, in
/// whole pairs (an odd last byte is dropped).
pub open spec fn utf16le_units(b: Seq<u8>, start: int) -> Seq<u16> {
    Seq::new(
        ((b.len() - start) / 2) as nat,
        |k: int| (b[start + 2 * k] as int + 256 * (b[start + 2 * k + 1] as int)) as u16,
    )
}

/// Reads whole little-endian byte pairs of `bytes` from `start` on.
pub fn utf16le_code_units(bytes: &[u8], start: usize) -> (r: Vec<u16>)
    requires
        start <= bytes@.len(),
    ensures
        r@ == utf16le_units(bytes@, start as int),
{
    let n = (bytes.len() - start) / 2;
    let mut units: Vec<u16> = Vec::new();
    let mut k: usize = 0;
    while k < n
        invariant
            n == (bytes@.len() - start) / 2,
            start + 2 * n <= bytes@.len(),
            bytes@.len() <= usize::MAX,
            start <= bytes@.len(),
            k <= n,
            units@.len() == k,
            forall|j: int| 0 <= j < k ==> #[trigger] units@[j] == utf16le_units(bytes@, start as int)[j],
        decreases n - k,
    {
        let at = start + 2 * k;
        let lo = bytes[at] as u16;
        let hi = bytes[at + 1] as u16;
        units.push(lo + 256 * hi);
        k = k + 1;
    }
    assert(units@ =~= utf16le_units(bytes@, start as int));
    units
}

/// The text PowerShell printed: UTF-16LE when it looks so, else UTF-8 when
/// valid, else GBK; trimmed.
pub open spec fn powershell_text(b: Seq<u8>) -> Seq<char> {
    if b.len() == 0 {
        seq![]
    } else if looks_utf16(b) {
        trim(
            utf16_lossy(
                utf16le_units(
                    b,
                    if has_utf16le_bom(b) {
                        2
                    } else {
                        0
                    },
                ),
            ),
        )
    } else {
        match utf8_text(b) {
            Some(text) => trim(text),
            None => trim(gbk_decoded(b)),
        }
    }
}

/// Decodes what a PowerShell process wrote to one of its output streams.
pub fn decode_powershell_output(bytes: &[u8]) -> (r: String)
    requires
        bytes@.len() <= usize::MAX / 8,
    ensures
        r@ == powershell_text(bytes@),
{
    if bytes.len() == 0 {
        return String::new();
    }
    if looks_like_utf16(bytes) {
        let start: usize = if bytes.len() >= 2 && bytes[0] == 0xff && bytes[1] == 0xfe {
            2
        } else {
            0
        };
        let units = utf16le_code_units(bytes, start);
        let decoded = decode_utf16_lossy(units.as_slice());
        let t = trim_chars(decoded.as_str());
        return string_from(t.as_slice());
    }
    match decode_utf8(bytes) {
        Some(text) => {
            let t = trim_chars(text.as_str());
            string_from(t.as_slice())
        },
        None => {
            let decoded = decode_gbk(bytes);
            let t = trim_chars(decoded.as_str());
            string_from(t.as_slice())
        },
    }
}

/// What a finished PowerShell run amounts to: its standard output on
/// success; else standard error, or standard output when that is empty, or a
/// message naming the exit status when both are.
pub open spec fn powershell_outcome(
    success: bool,
    stdout: Seq<char>,
    stderr: Seq<char>,
    status: Seq<char>,
) -> Result<Seq<char>, Seq<char>> {
    if success {
        Ok(stdout)
    } else {
        let detail = if stderr.len() == 0 {
            stdout
        } else {
            stderr
        };
        if detail.len() == 0 {
            Err("Dream Skin 本地运行器退出，状态码: "@ + status)
        } else {
            Err(detail)
        }
    }
}

/// Turns the decoded output streams and exit status of a PowerShell run into
/// its result; `status` is how the exit status prints.
pub fn powershell_result(success: bool, stdout: String, stderr: String, status: &str) -> (r: Result<
    String,
    String,
>)
    ensures
        match (r, powershell_outcome(success, stdout@, stderr@, status@)) {
            (Ok(a), Ok(b)) => a@ == b,
            (Err(a), Err(b)) => a@ == b,
            _ => false,
        },
{
    if success {
        return Ok(stdout);
    }
    let detail = if stderr.unicode_len() == 0 {
        stdout
    } else {
        stderr
    };
    if detail.unicode_len() == 0 {
        let mut m = "Dream Skin 本地运行器退出，状态码: ".to_string();
        m.append(status);
        return Err(m);
    }
    Err(detail)
}

} // verus!
