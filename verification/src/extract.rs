//! The command line that cuts one segment out of a media file as 16 kHz mono
//! PCM with ffmpeg.
use vstd::prelude::*;
use crate::fmt::{dec, pad, push_decimal, push_padded};
use crate::segment::text_seq;
use crate::text::from_chars;

verus! {

broadcast use vstd::string::group_string_axioms;

/// `s` without its trailing `'0'` characters.
pub open spec fn strip_zeros(s: Seq<char>) -> Seq<char>
    decreases s.len(),
{
    if s.len() > 0 && s.last() == '0' {
        strip_zeros(s.drop_last())
    } else {
        s
    }
}

/// Seconds of `ms` in shortest decimal form: `1500` reads `1.5`, `2000` reads
/// `2`, `20` reads `0.02`.
pub open spec fn seconds_text(ms: u64) -> Seq<char> {
    if ms % 1000 == 0 {
        dec((ms / 1000) as nat)
    } else {
        dec((ms / 1000) as nat) + seq!['.'] + strip_zeros(pad((ms % 1000) as nat, 3))
    }
}

/// Writes `ms` as seconds.
pub fn seconds_string(ms: u64) -> (s: String)
    ensures
        s@ == seconds_text(ms),
{
    let mut v: Vec<char> = Vec::new();
    push_decimal(&mut v, ms / 1000);
    let frac = ms % 1000;
    if frac != 0 {
        v.push('.');
        let mut f: Vec<char> = Vec::new();
        push_padded(&mut f, frac, 3);
        assert(f@ =~= pad(frac as nat, 3));
        let mut n = f.len();
        assert(f@.take(n as int) =~= f@);
        while n > 0 && f[n - 1] == '0'
            invariant
                n <= f@.len(),
                strip_zeros(pad(frac as nat, 3)) == strip_zeros(f@.take(n as int)),
            decreases n,
        {
            assert(f@.take(n as int).drop_last() =~= f@.take(n - 1));
            n -= 1;
        }
        let ghost v0 = v@;
        let mut k: usize = 0;
        while k < n
            invariant
                k <= n <= f@.len(),
                v@ == v0 + f@.take(k as int),
            decreases n - k,
        {
            v.push(f[k]);
            k += 1;
            assert(v@ =~= v0 + f@.take(k as int));
        }
        assert(strip_zeros(f@.take(n as int)) == f@.take(n as int));
    }
    assert(v@ =~= seconds_text(ms));
    from_chars(&v)
}

#[derive(Debug)]
pub enum ExtractError {
    /// The segment ends at or before its start.
    NonPositiveDuration,
}

impl ExtractError {
    pub fn message(&self) -> (s: String)
        ensures
            s@ == "segment duration must be positive"@,
    {
        "segment duration must be positive".to_string()
    }
}

/// The ffmpeg arguments that write `[start_ms, end_ms)` of `media` to `output`.
pub open spec fn ffmpeg_args(media: Seq<char>, start_ms: u64, end_ms: u64, output: Seq<char>) -> Seq<Seq<char>> {
    seq![
        "-hide_banner"@,
        "-loglevel"@,
        "error"@,
        "-ss"@,
        seconds_text(start_ms),
        "-i"@,
        media,
        "-t"@,
        seconds_text((end_ms - start_ms) as u64),
        "-vn"@,
        "-ac"@,
        "1"@,
        "-ar"@,
        "16000"@,
        "-acodec"@,
        "pcm_s16le"@,
        "-y"@,
        output,
    ]
}

/// The ffmpeg arguments for a segment; a segment that does not end after it
/// starts is refused.
pub fn ffmpeg_segment_args(media: &str, start_ms: u64, end_ms: u64, output: &str) -> (r: Result<Vec<String>, ExtractError>)
    ensures
        end_ms <= start_ms <==> r is Err,
        r matches Ok(a) ==> text_seq(a@) == ffmpeg_args(media@, start_ms, end_ms, output@),
{
    if end_ms <= start_ms {
        return Err(ExtractError::NonPositiveDuration);
    }
    let mut a: Vec<String> = Vec::new();
    a.push("-hide_banner".to_string());
    a.push("-loglevel".to_string());
    a.push("error".to_string());
    a.push("-ss".to_string());
    a.push(seconds_string(start_ms));
    a.push("-i".to_string());
    a.push(media.to_string());
    a.push("-t".to_string());
    a.push(seconds_string(end_ms - start_ms));
    a.push("-vn".to_string());
    a.push("-ac".to_string());
    a.push("1".to_string());
    a.push("-ar".to_string());
    a.push("16000".to_string());
    a.push("-acodec".to_string());
    a.push("pcm_s16le".to_string());
    a.push("-y".to_string());
    a.push(output.to_string());
    assert(text_seq(a@) =~= ffmpeg_args(media@, start_ms, end_ms, output@));
    Ok(a)
}

} // verus!
