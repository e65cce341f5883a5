//! Screenshots as evidence: encoding them in base64, within the size that is
//! accepted.

use vstd::prelude::*;

use crate::number::{decimal, push_decimal};
use crate::text::{chars_of, push_text, string_of};

verus! {

/// The largest image that is sent. Ten megabytes are accepted; this stays well
/// below.
pub const MAX_SCREENSHOT_BYTES: usize = 8_388_608;

/// The character for six bits in the standard base64 alphabet.
pub open spec fn base64_char(n: int) -> char {
    if n < 26 {
        ('A' as u8 + n) as char
    } else if n < 52 {
        ('a' as u8 + n - 26) as char
    } else if n < 62 {
        ('0' as u8 + n - 52) as char
    } else if n == 62 {
        '+'
    } else {
        '/'
    }
}

/// Bytes in base64 with the standard alphabet and padding.
pub open spec fn base64_text(bytes: Seq<u8>) -> Seq<char>
    decreases bytes.len(),
{
    if bytes.len() == 0 {
        Seq::empty()
    } else {
        let a = bytes[0] as int;
        let b = if bytes.len() > 1 {
            bytes[1] as int
        } else {
            0
        };
        let c = if bytes.len() > 2 {
            bytes[2] as int
        } else {
            0
        };
        let group = seq![
            base64_char(a / 4),
            base64_char(a % 4 * 16 + b / 16),
            if bytes.len() > 1 {
                base64_char(b % 16 * 4 + c / 64)
            } else {
                '='
            },
            if bytes.len() > 2 {
                base64_char(c % 64)
            } else {
                '='
            },
        ];
        if bytes.len() > 3 {
            group + base64_text(bytes.skip(3))
        } else {
            group
        }
    }
}

/// `base64::Engine::encode` of `base64::engine::general_purpose::STANDARD`: the
/// bytes in base64 as RFC 4648 defines it. It panics where the length of the
/// result overflows, which no such number of bytes makes it do.
#[verifier::external_body]
fn encode_base64(bytes: &Vec<u8>) -> (text: String)
    requires
        bytes@.len() <= usize::MAX / 2,
    ensures
        text@ == base64_text(bytes@),
{
    base64::Engine::encode(&base64::engine::general_purpose::STANDARD, bytes)
}

/// What is encoded: a whole screenshot, or the panel cut out of one.
#[derive(Clone, Copy, Debug, PartialEq, Eq, Structural)]
pub enum Evidence {
    Screenshot,
    Panel,
}

/// One attempt to encode an image: its size in percent and the quality.
#[derive(Clone, Copy, Debug, PartialEq, Eq, Structural)]
pub struct Attempt {
    pub percent: u8,
    pub quality: u8,
}

/// The attempts, from the largest to the smallest. The last one is a last resort:
/// its outcome is taken whatever its size.
pub open spec fn attempts(evidence: Evidence) -> Seq<Attempt> {
    match evidence {
        Evidence::Screenshot => seq![
            Attempt { percent: 100, quality: 80 },
            Attempt { percent: 75, quality: 80 },
            Attempt { percent: 50, quality: 80 },
            Attempt { percent: 35, quality: 80 },
            Attempt { percent: 25, quality: 70 },
        ],
        Evidence::Panel => seq![
            Attempt { percent: 100, quality: 82 },
            Attempt { percent: 85, quality: 82 },
            Attempt { percent: 70, quality: 82 },
            Attempt { percent: 50, quality: 82 },
            Attempt { percent: 35, quality: 82 },
            Attempt { percent: 30, quality: 70 },
        ],
    }
}

/// What to do next: the image is encoded, or the attempt with the given number is
/// to be made.
pub enum EncodeStep {
    Done(String),
    Try(usize),
}

/// The attempt with number `n`; `None` behind the last.
pub fn attempt(evidence: Evidence, n: usize) -> (r: Option<Attempt>)
    ensures
        r == if n < attempts(evidence).len() {
            Some(attempts(evidence)[n as int])
        } else {
            None
        },
{
    match evidence {
        Evidence::Screenshot => match n {
            0 => Some(Attempt { percent: 100, quality: 80 }),
            1 => Some(Attempt { percent: 75, quality: 80 }),
            2 => Some(Attempt { percent: 50, quality: 80 }),
            3 => Some(Attempt { percent: 35, quality: 80 }),
            4 => Some(Attempt { percent: 25, quality: 70 }),
            _ => None,
        },
        Evidence::Panel => match n {
            0 => Some(Attempt { percent: 100, quality: 82 }),
            1 => Some(Attempt { percent: 85, quality: 82 }),
            2 => Some(Attempt { percent: 70, quality: 82 }),
            3 => Some(Attempt { percent: 50, quality: 82 }),
            4 => Some(Attempt { percent: 35, quality: 82 }),
            5 => Some(Attempt { percent: 30, quality: 70 }),
            _ => None,
        },
    }
}

/// The first step for a screenshot, given the bytes of its file: they are sent as
/// they are where they are small enough.
pub fn start_screenshot(raw: &Vec<u8>) -> (step: EncodeStep)
    ensures
        match step {
            EncodeStep::Done(text) => raw@.len() <= MAX_SCREENSHOT_BYTES && text@ == base64_text(
                raw@,
            ),
            EncodeStep::Try(n) => raw@.len() > MAX_SCREENSHOT_BYTES && n == 0,
        },
        step is Done <==> is_small_enough(raw@.len(), false),
{
    if raw.len() <= MAX_SCREENSHOT_BYTES {
        EncodeStep::Done(encode_base64(raw))
    } else {
        EncodeStep::Try(0)
    }
}

/// The step after attempt `n` gave `bytes`: the image is encoded where it is small
/// enough or where this was the last attempt; otherwise the next attempt is due.
pub fn after_attempt(evidence: Evidence, n: usize, bytes: &Vec<u8>) -> (step: EncodeStep)
    requires
        n < attempts(evidence).len(),
        bytes@.len() <= usize::MAX / 2,
    ensures
        ({
            let last = n == attempts(evidence).len() - 1;
            match step {
                EncodeStep::Done(text) => (bytes@.len() <= MAX_SCREENSHOT_BYTES || last) && text@
                    == base64_text(bytes@),
                EncodeStep::Try(next) => bytes@.len() > MAX_SCREENSHOT_BYTES && !last && next == n
                    + 1,
            }
        }),
        step is Done <==> is_small_enough(bytes@.len(), n == attempts(evidence).len() - 1),
{
    let last: usize = match evidence {
        Evidence::Screenshot => 4,
        Evidence::Panel => 5,
    };
    if bytes.len() <= MAX_SCREENSHOT_BYTES || n == last {
        EncodeStep::Done(encode_base64(bytes))
    } else {
        EncodeStep::Try(n + 1)
    }
}

/// Attempts get smaller, so that a later one is worth making.
pub proof fn law_attempts_get_smaller(evidence: Evidence, k: int, l: int)
    requires
        0 <= k < l < attempts(evidence).len(),
    ensures
        attempts(evidence)[l].percent < attempts(evidence)[k].percent,
        attempts(evidence)[l].quality <= attempts(evidence)[k].quality,
{
}

/// Different bytes have different base64 texts, so that the text can be decoded.
pub proof fn law_base64_is_faithful(x: Seq<u8>, y: Seq<u8>)
    requires
        base64_text(x) == base64_text(y),
    ensures
        x == y,
    decreases x.len(),
{
    let t = base64_text(x);
    if x.len() == 0 || y.len() == 0 {
        assert(t.len() == 0);
        assert(x =~= y);
    } else {
        lemma_group(x);
        lemma_group(y);
        if x.len() > 3 {
            assert(t.skip(4) =~= base64_text(x.skip(3)));
            assert(t.skip(4) =~= base64_text(y.skip(3)));
            law_base64_is_faithful(x.skip(3), y.skip(3));
            assert(x =~= seq![x[0], x[1], x[2]] + x.skip(3));
            assert(y =~= seq![y[0], y[1], y[2]] + y.skip(3));
        } else {
            assert(x =~= y);
        }
    }
}

/// The number that a character of the base64 alphabet stands for.
spec fn base64_value(c: char) -> int {
    if 'A' <= c && c <= 'Z' {
        c as int - 'A' as int
    } else if 'a' <= c && c <= 'z' {
        c as int - 'a' as int + 26
    } else if '0' <= c && c <= '9' {
        c as int - '0' as int + 52
    } else if c == '+' {
        62
    } else {
        63
    }
}

proof fn lemma_base64_char(n: int)
    requires
        0 <= n < 64,
    ensures
        base64_value(base64_char(n)) == n,
        base64_char(n) != '=',
{
}

/// What the first group of a text tells of the bytes.
proof fn lemma_group(x: Seq<u8>)
    requires
        x.len() > 0,
    ensures
        ({
            let t = base64_text(x);
            &&& t.len() >= 4
            &&& x[0] == base64_value(t[0]) * 4 + base64_value(t[1]) / 16
            &&& x.len() > 1 <==> t[2] != '='
            &&& x.len() > 2 <==> t[3] != '='
            &&& x.len() > 1 ==> x[1] == base64_value(t[1]) % 16 * 16 + base64_value(t[2]) / 4
            &&& x.len() > 2 ==> x[2] == base64_value(t[2]) % 4 * 64 + base64_value(t[3])
            &&& x.len() > 3 <==> t.len() > 4
            &&& x.len() > 3 ==> t.skip(4) == base64_text(x.skip(3))
        }),
{
    let a = x[0] as int;
    let b = if x.len() > 1 {
        x[1] as int
    } else {
        0
    };
    let c = if x.len() > 2 {
        x[2] as int
    } else {
        0
    };
    lemma_base64_char(a / 4);
    lemma_base64_char(a % 4 * 16 + b / 16);
    lemma_base64_char(b % 16 * 4 + c / 64);
    lemma_base64_char(c % 64);
    let t = base64_text(x);
    if x.len() > 3 {
        assert(base64_text(x.skip(3)).len() > 0);
        assert(t.skip(4) =~= base64_text(x.skip(3)));
    }
}

/// The name of a temporary file for an image that is prepared for recognition.
pub fn prepared_file_name(pid: u32, run: u64) -> (name: String)
    ensures
        name@ == "ruex_prep_"@ + decimal(pid as nat) + "_"@ + decimal(run as nat) + ".png"@,
{
    let mut v = chars_of("ruex_prep_");
    push_decimal(&mut v, pid as u64);
    push_text(&mut v, "_");
    push_decimal(&mut v, run);
    push_text(&mut v, ".png");
    string_of(&v)
}

/// An image of so many bytes is sent, given whether there is a smaller attempt left.
pub open spec fn is_small_enough(size: nat, last: bool) -> bool {
    size <= MAX_SCREENSHOT_BYTES || last
}

/// An image is sent as soon as it has at most eight mebibytes, and it is then within the ten
/// megabytes that are accepted; a larger one is tried again in a smaller size, as long as
/// there is one.
pub proof fn law_sent_images_are_small_enough(size: nat, last: bool)
    ensures
        size <= 8 * 1024 * 1024 ==> is_small_enough(size, last),
        size > 8 * 1024 * 1024 && !last ==> !is_small_enough(size, last),
        last ==> is_small_enough(size, last),
        !last && is_small_enough(size, last) ==> size < 10_000_000,
{
}

/// Three bytes make four characters.
pub proof fn law_base64_grows_by_a_third(bytes: Seq<u8>)
    ensures
        base64_text(bytes).len() == (bytes.len() + 2) / 3 * 4,
    decreases bytes.len(),
{
    if bytes.len() > 3 {
        law_base64_grows_by_a_third(bytes.skip(3));
    }
}

} // verus!
