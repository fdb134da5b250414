//! How script values are read: easing names, object-fit names and hex colours.

use crate::animation::EasingType;
use crate::strings::str_eq;
use crate::types::ObjectFit;
use vstd::prelude::*;
use vstd::string::StringSliceAdditionalSpecFns;

verus! {

/// The easing that a script names; every unknown name is linear.
pub open spec fn easing_of(name: Seq<char>) -> EasingType {
    if name == "linear"@ {
        EasingType::Linear
    } else if name == "ease_in"@ {
        EasingType::EaseIn
    } else if name == "ease_out"@ {
        EasingType::EaseOut
    } else if name == "ease_in_out"@ {
        EasingType::EaseInOut
    } else if name == "bounce_out"@ {
        EasingType::BounceOut
    } else if name == "bounce_in"@ {
        EasingType::BounceIn
    } else if name == "bounce_in_out"@ {
        EasingType::BounceInOut
    } else if name == "elastic_out"@ {
        EasingType::ElasticOut
    } else if name == "elastic_in"@ {
        EasingType::ElasticIn
    } else if name == "elastic_in_out"@ {
        EasingType::ElasticInOut
    } else if name == "back_out"@ {
        EasingType::BackOut
    } else if name == "back_in"@ {
        EasingType::BackIn
    } else if name == "back_in_out"@ {
        EasingType::BackInOut
    } else {
        EasingType::Linear
    }
}

/// Parses an easing name as scripts write it.
pub fn parse_easing(ease: &str) -> (r: EasingType)
    ensures
        r == easing_of(ease@),
{
    if str_eq(ease, "linear") {
        EasingType::Linear
    } else if str_eq(ease, "ease_in") {
        EasingType::EaseIn
    } else if str_eq(ease, "ease_out") {
        EasingType::EaseOut
    } else if str_eq(ease, "ease_in_out") {
        EasingType::EaseInOut
    } else if str_eq(ease, "bounce_out") {
        EasingType::BounceOut
    } else if str_eq(ease, "bounce_in") {
        EasingType::BounceIn
    } else if str_eq(ease, "bounce_in_out") {
        EasingType::BounceInOut
    } else if str_eq(ease, "elastic_out") {
        EasingType::ElasticOut
    } else if str_eq(ease, "elastic_in") {
        EasingType::ElasticIn
    } else if str_eq(ease, "elastic_in_out") {
        EasingType::ElasticInOut
    } else if str_eq(ease, "back_out") {
        EasingType::BackOut
    } else if str_eq(ease, "back_in") {
        EasingType::BackIn
    } else if str_eq(ease, "back_in_out") {
        EasingType::BackInOut
    } else {
        EasingType::Linear
    }
}

/// The object fit that a script names, if any.
pub open spec fn object_fit_of(name: Seq<char>) -> Option<ObjectFit> {
    if name == "cover"@ {
        Some(ObjectFit::Cover)
    } else if name == "contain"@ {
        Some(ObjectFit::Contain)
    } else if name == "fill"@ {
        Some(ObjectFit::Fill)
    } else {
        None
    }
}

/// Parses an object-fit name; `None` for an unknown one.
pub fn parse_object_fit(val: &str) -> (r: Option<ObjectFit>)
    ensures
        r == object_fit_of(val@),
{
    if str_eq(val, "cover") {
        Some(ObjectFit::Cover)
    } else if str_eq(val, "contain") {
        Some(ObjectFit::Contain)
    } else if str_eq(val, "fill") {
        Some(ObjectFit::Fill)
    } else {
        None
    }
}

/// The value of a hexadecimal digit (`0-9`, `a-f`, `A-F`), as
/// `char::to_digit(16)` gives it for the byte's character.
pub open spec fn hex_digit_value(c: u8) -> Option<int> {
    if 0x30 <= c && c <= 0x39 {
        Some(c - 0x30)
    } else if 0x61 <= c && c <= 0x66 {
        Some(c - 0x61 + 10)
    } else if 0x41 <= c && c <= 0x46 {
        Some(c - 0x41 + 10)
    } else {
        None
    }
}

/// Every decimal digit `0`-`9` and every letter `a`-`f` and `A`-`F` is a
/// hexadecimal digit with its usual value (a letter of either case counts
/// ten and up); every other byte is none.
pub proof fn lemma_hex_digit_values()
    ensures
        forall|d: int| 0 <= d < 10 ==> #[trigger] hex_digit_value((('0' as int) + d) as u8) == Some(d),
        forall|d: int| 0 <= d < 6 ==> #[trigger] hex_digit_value((('a' as int) + d) as u8) == Some(10 + d),
        forall|d: int| 0 <= d < 6 ==> #[trigger] hex_digit_value((('A' as int) + d) as u8) == Some(10 + d),
        forall|c: u8|
            !(('0' as int) <= c <= ('9' as int) || ('a' as int) <= c <= ('f' as int) || ('A' as int) <= c <= ('F' as int))
                ==> #[trigger] hex_digit_value(c) is None,
{
}

/// The number that a run of hexadecimal digits writes, if every byte is one.
pub open spec fn hex_digits_value(d: Seq<u8>) -> Option<int>
    decreases d.len(),
{
    if d.len() == 0 {
        Some(0)
    } else {
        match (hex_digits_value(d.drop_last()), hex_digit_value(d.last())) {
            (Some(v), Some(x)) => Some(16 * v + x),
            _ => None,
        }
    }
}

/// The byte that a channel of one or two hexadecimal digits writes: at
/// least one byte, every byte a hexadecimal digit (no sign), with a value
/// that fits in a byte.
pub open spec fn hex_byte(s: Seq<u8>) -> Option<u8> {
    if s.len() == 0 {
        None
    } else {
        match hex_digits_value(s) {
            Some(v) => if v <= 255 {
                Some(v as u8)
            } else {
                None
            },
            None => None,
        }
    }
}

/// The bytes `s` without their leading `#` bytes.
pub open spec fn strip_hashes(s: Seq<u8>) -> Seq<u8>
    decreases s.len(),
{
    if s.len() > 0 && s[0] == 0x23 {
        strip_hashes(s.drop_first())
    } else {
        s
    }
}

/// The red, green and blue bytes that the text with bytes `s` writes: after
/// any leading `#`s, six digits (two per channel) or three (one per channel,
/// repeated, so `f` is `ff`).
pub open spec fn hex_color_of(s: Seq<u8>) -> Option<(u8, u8, u8)> {
    let h = strip_hashes(s);
    if h.len() == 6 {
        match (hex_byte(h.subrange(0, 2)), hex_byte(h.subrange(2, 4)), hex_byte(h.subrange(4, 6))) {
            (Some(r), Some(g), Some(b)) => Some((r, g, b)),
            _ => None,
        }
    } else if h.len() == 3 {
        match (hex_byte(h.subrange(0, 1)), hex_byte(h.subrange(1, 2)), hex_byte(h.subrange(2, 3))) {
            (Some(r), Some(g), Some(b)) => Some(((r * 17) as u8, (g * 17) as u8, (b * 17) as u8)),
            _ => None,
        }
    } else {
        None
    }
}

/// The value of one hexadecimal digit byte.
fn hex_digit(c: u8) -> (r: Option<u8>)
    ensures
        match r {
            Some(v) => hex_digit_value(c) == Some(v as int) && v < 16,
            None => hex_digit_value(c) is None,
        },
{
    if 0x30 <= c && c <= 0x39 {
        Some(c - 0x30)
    } else if 0x61 <= c && c <= 0x66 {
        Some(c - 0x61 + 10)
    } else if 0x41 <= c && c <= 0x46 {
        Some(c - 0x41 + 10)
    } else {
        None
    }
}

/// Reads the channel byte written by `b[lo..hi]`, one or two bytes long.
fn hex_byte_at(b: &[u8], lo: usize, hi: usize) -> (r: Option<u8>)
    requires
        lo < hi <= b@.len(),
        hi - lo <= 2,
    ensures
        r == hex_byte(b@.subrange(lo as int, hi as int)),
        hi - lo == 1 && r is Some ==> r.unwrap() < 16,
{
    let ghost digits = b@.subrange(lo as int, hi as int);
    let first = hex_digit(b[lo]);
    proof {
        assert(digits.subrange(0, 1).drop_last() =~= Seq::<u8>::empty());
        assert(digits.subrange(0, 1).last() == b@[lo as int]);
    }
    match first {
        None => {
            proof {
                assert(hex_digit_value(digits.subrange(0, 1).last()) is None);
                assert(hex_digits_value(digits.subrange(0, 1)) is None);
                if digits.len() == 1 {
                    assert(digits =~= digits.subrange(0, 1));
                } else {
                    assert(digits.drop_last() =~= digits.subrange(0, 1));
                }
            }
            None
        },
        Some(x) => {
            proof {
                assert(hex_digits_value(digits.subrange(0, 1).drop_last()) == Some(0int));
                assert(hex_digits_value(digits.subrange(0, 1)) == Some(x as int));
            }
            if hi - lo == 1 {
                proof {
                    assert(digits =~= digits.subrange(0, 1));
                }
                Some(x)
            } else {
                let second = hex_digit(b[lo + 1]);
                proof {
                    assert(digits.drop_last() =~= digits.subrange(0, 1));
                    assert(digits.last() == b@[lo + 1]);
                }
                match second {
                    None => None,
                    Some(y) => {
                        assert(hex_byte(digits) == Some((x * 16 + y) as u8));
                        Some(x * 16 + y)
                    },
                }
            }
        },
    }
}

/// The number of leading `#` bytes in `b`.
fn count_hashes(b: &[u8]) -> (k: usize)
    ensures
        k <= b@.len(),
        strip_hashes(b@) == b@.subrange(k as int, b@.len() as int),
{
    let mut k: usize = 0;
    proof {
        assert(b@.subrange(0, b@.len() as int) =~= b@);
    }
    while k < b.len() && b[k] == 0x23
        invariant
            k <= b@.len(),
            strip_hashes(b@) == strip_hashes(b@.subrange(k as int, b@.len() as int)),
        decreases b@.len() - k,
    {
        proof {
            assert(b@.subrange(k as int, b@.len() as int).drop_first() =~= b@.subrange(k + 1, b@.len() as int));
        }
        k += 1;
    }
    k
}

/// Whether every byte of `s` is a hexadecimal digit.
pub open spec fn all_hex_digits(s: Seq<u8>) -> bool {
    forall|i: int| 0 <= i < s.len() ==> (#[trigger] hex_digit_value(s[i])) is Some
}

/// A run of bytes has a value exactly when every byte is a hexadecimal digit;
/// a run of at most two digits has a value that fits in a byte.
proof fn lemma_hex_digits_some(d: Seq<u8>)
    ensures
        hex_digits_value(d) is Some <==> all_hex_digits(d),
        hex_digits_value(d) is Some ==> 0 <= hex_digits_value(d).unwrap(),
        hex_digits_value(d) is Some && d.len() <= 1 ==> hex_digits_value(d).unwrap() < 16,
        hex_digits_value(d) is Some && d.len() <= 2 ==> hex_digits_value(d).unwrap() <= 255,
    decreases d.len(),
{
    if d.len() > 0 {
        lemma_hex_digits_some(d.drop_last());
        if all_hex_digits(d) {
            assert(hex_digit_value(d[d.len() - 1]) is Some);
            assert forall|i: int| 0 <= i < d.drop_last().len() implies (#[trigger] hex_digit_value(d.drop_last()[i])) is Some by {
                assert(d.drop_last()[i] == d[i]);
                assert(hex_digit_value(d[i]) is Some);
            }
        }
        if hex_digits_value(d) is Some {
            assert forall|i: int| 0 <= i < d.len() implies (#[trigger] hex_digit_value(d[i])) is Some by {
                if i < d.len() - 1 {
                    assert(d.drop_last()[i] == d[i]);
                    assert(hex_digit_value(d.drop_last()[i]) is Some);
                }
            }
        }
    }
}

/// A channel of one or two bytes reads as a byte exactly when its bytes are
/// hexadecimal digits.
proof fn lemma_hex_byte_some(s: Seq<u8>)
    requires
        1 <= s.len() <= 2,
    ensures
        hex_byte(s) is Some <==> all_hex_digits(s),
{
    lemma_hex_digits_some(s);
}

/// The bytes of a colour are all digits exactly when each of its channels'
/// bytes are.
proof fn lemma_all_hex_split(h: Seq<u8>, cuts: Seq<int>)
    requires
        cuts.len() == 4,
        cuts[0] == 0,
        cuts[3] == h.len(),
        cuts[0] < cuts[1] < cuts[2] < cuts[3],
    ensures
        all_hex_digits(h) <==> (all_hex_digits(h.subrange(cuts[0], cuts[1]))
            && all_hex_digits(h.subrange(cuts[1], cuts[2])) && all_hex_digits(h.subrange(cuts[2], cuts[3]))),
{
    if all_hex_digits(h.subrange(cuts[0], cuts[1])) && all_hex_digits(h.subrange(cuts[1], cuts[2]))
        && all_hex_digits(h.subrange(cuts[2], cuts[3])) {
        assert forall|i: int| 0 <= i < h.len() implies (#[trigger] hex_digit_value(h[i])) is Some by {
            if i < cuts[1] {
                assert(h.subrange(cuts[0], cuts[1])[i - cuts[0]] == h[i]);
                assert(hex_digit_value(h.subrange(cuts[0], cuts[1])[i - cuts[0]]) is Some);
            } else if i < cuts[2] {
                assert(h.subrange(cuts[1], cuts[2])[i - cuts[1]] == h[i]);
                assert(hex_digit_value(h.subrange(cuts[1], cuts[2])[i - cuts[1]]) is Some);
            } else {
                assert(h.subrange(cuts[2], cuts[3])[i - cuts[2]] == h[i]);
                assert(hex_digit_value(h.subrange(cuts[2], cuts[3])[i - cuts[2]]) is Some);
            }
        }
    }
    if all_hex_digits(h) {
        assert forall|j: int| 0 <= j < 3 implies #[trigger] all_hex_digits(h.subrange(cuts[j], cuts[j + 1])) by {
            assert forall|i: int| 0 <= i < h.subrange(cuts[j], cuts[j + 1]).len()
                implies (#[trigger] hex_digit_value(h.subrange(cuts[j], cuts[j + 1])[i])) is Some by {
                assert(h.subrange(cuts[j], cuts[j + 1])[i] == h[cuts[j] + i]);
                assert(hex_digit_value(h[cuts[j] + i]) is Some);
            }
        }
        assert(all_hex_digits(h.subrange(cuts[0], cuts[1])));
        assert(all_hex_digits(h.subrange(cuts[1], cuts[2])));
        assert(all_hex_digits(h.subrange(cuts[2], cuts[3])));
    }
}

/// A text is a colour exactly when, after its leading `#`s, it has three or
/// six bytes and each is a hexadecimal digit.
pub proof fn lemma_hex_color_some(s: Seq<u8>)
    ensures
        hex_color_of(s) is Some <==> ({
            let h = strip_hashes(s);
            (h.len() == 6 || h.len() == 3) && all_hex_digits(h)
        }),
{
    let h = strip_hashes(s);
    if h.len() == 6 {
        lemma_hex_byte_some(h.subrange(0, 2));
        lemma_hex_byte_some(h.subrange(2, 4));
        lemma_hex_byte_some(h.subrange(4, 6));
        lemma_all_hex_split(h, seq![0int, 2, 4, 6]);
    } else if h.len() == 3 {
        lemma_hex_byte_some(h.subrange(0, 1));
        lemma_hex_byte_some(h.subrange(1, 2));
        lemma_hex_byte_some(h.subrange(2, 3));
        lemma_all_hex_split(h, seq![0int, 1, 2, 3]);
    }
}

/// Parses a hex colour (`#rrggbb` or `#rgb`, any number of leading `#`s) into
/// its red, green and blue bytes; `None` when the text is no such colour
/// (any other length, or a byte that is not a hexadecimal digit).
pub fn parse_hex_color(hex: &str) -> (r: Option<(u8, u8, u8)>)
    ensures
        r == hex_color_of(hex.spec_bytes()),
        r is Some <==> ({
            let h = strip_hashes(hex.spec_bytes());
            (h.len() == 6 || h.len() == 3) && all_hex_digits(h)
        }),
{
    proof {
        lemma_hex_color_some(hex.spec_bytes());
    }
    let b = hex.as_bytes();
    let k = count_hashes(b);
    let n = b.len() - k;
    let ghost h = b@.subrange(k as int, b@.len() as int);
    if n == 6 {
        proof {
            assert(h.subrange(0, 2) =~= b@.subrange(k as int, k + 2));
            assert(h.subrange(2, 4) =~= b@.subrange(k + 2, k + 4));
            assert(h.subrange(4, 6) =~= b@.subrange(k + 4, k + 6));
        }
        let r = hex_byte_at(b, k, k + 2);
        let g = hex_byte_at(b, k + 2, k + 4);
        let bl = hex_byte_at(b, k + 4, k + 6);
        match (r, g, bl) {
            (Some(r), Some(g), Some(bl)) => Some((r, g, bl)),
            _ => None,
        }
    } else if n == 3 {
        proof {
            assert(h.subrange(0, 1) =~= b@.subrange(k as int, k + 1));
            assert(h.subrange(1, 2) =~= b@.subrange(k + 1, k + 2));
            assert(h.subrange(2, 3) =~= b@.subrange(k + 2, k + 3));
        }
        let r = hex_byte_at(b, k, k + 1);
        let g = hex_byte_at(b, k + 1, k + 2);
        let bl = hex_byte_at(b, k + 2, k + 3);
        match (r, g, bl) {
            (Some(r), Some(g), Some(bl)) => Some((r * 17, g * 17, bl * 17)),
            _ => None,
        }
    } else {
        None
    }
}

/// One and two repeated digits read as the digit and seventeen times it.
proof fn lemma_hex_repeat(x: u8)
    requires
        hex_digit_value(x) is Some,
    ensures
        hex_byte(seq![x]) == Some(hex_digit_value(x).unwrap() as u8),
        hex_byte(seq![x, x]) == Some((hex_digit_value(x).unwrap() * 17) as u8),
{
    let v = hex_digit_value(x).unwrap();
    let one = seq![x];
    let two = seq![x, x];
    assert(one.drop_last() =~= Seq::<u8>::empty());
    assert(hex_digits_value(one.drop_last()) == Some(0int));
    assert(one.last() == x);
    assert(hex_digits_value(one) == Some(v));
    assert(two.drop_last() =~= one);
    assert(two.last() == x);
    assert(hex_digits_value(two) == Some(16 * v + v));
}

/// A short colour `#rgb` is the long colour `#rrggbb`: each digit stands for
/// the byte that repeats it.
pub proof fn lemma_short_hex_repeats_digits(r: u8, g: u8, b: u8)
    requires
        hex_digit_value(r) is Some,
        hex_digit_value(g) is Some,
        hex_digit_value(b) is Some,
    ensures
        hex_color_of(seq![r, g, b]) == hex_color_of(seq![r, r, g, g, b, b]),
        hex_color_of(seq![r, g, b]) is Some,
{
    let short = seq![r, g, b];
    let long = seq![r, r, g, g, b, b];
    assert(strip_hashes(short) == short);
    assert(strip_hashes(long) == long);
    lemma_hex_repeat(r);
    lemma_hex_repeat(g);
    lemma_hex_repeat(b);
    assert(short.subrange(0, 1) =~= seq![r]);
    assert(short.subrange(1, 2) =~= seq![g]);
    assert(short.subrange(2, 3) =~= seq![b]);
    assert(long.subrange(0, 2) =~= seq![r, r]);
    assert(long.subrange(2, 4) =~= seq![g, g]);
    assert(long.subrange(4, 6) =~= seq![b, b]);
}


/// Each easing name that scripts write names its own curve.
pub proof fn lemma_easing_names()
    ensures
        easing_of("linear"@) == EasingType::Linear,
        easing_of("ease_in"@) == EasingType::EaseIn,
        easing_of("ease_out"@) == EasingType::EaseOut,
        easing_of("ease_in_out"@) == EasingType::EaseInOut,
        easing_of("bounce_out"@) == EasingType::BounceOut,
        easing_of("bounce_in"@) == EasingType::BounceIn,
        easing_of("bounce_in_out"@) == EasingType::BounceInOut,
        easing_of("elastic_out"@) == EasingType::ElasticOut,
        easing_of("elastic_in"@) == EasingType::ElasticIn,
        easing_of("elastic_in_out"@) == EasingType::ElasticInOut,
        easing_of("back_out"@) == EasingType::BackOut,
        easing_of("back_in"@) == EasingType::BackIn,
        easing_of("back_in_out"@) == EasingType::BackInOut,
{
    reveal_strlit("linear");
    reveal_strlit("ease_in");
    reveal_strlit("ease_out");
    reveal_strlit("ease_in_out");
    reveal_strlit("bounce_out");
    reveal_strlit("bounce_in");
    reveal_strlit("bounce_in_out");
    reveal_strlit("elastic_out");
    reveal_strlit("elastic_in");
    reveal_strlit("elastic_in_out");
    reveal_strlit("back_out");
    reveal_strlit("back_in");
    reveal_strlit("back_in_out");
    assert("linear"@.len() == 6);
    assert("ease_in"@.len() == 7);
    assert("ease_out"@.len() == 8);
    assert("ease_in_out"@.len() == 11);
    assert("bounce_out"@.len() == 10);
    assert("bounce_in"@.len() == 9);
    assert("bounce_in_out"@.len() == 13);
    assert("elastic_out"@.len() == 11);
    assert("elastic_in"@.len() == 10);
    assert("elastic_in_out"@.len() == 14);
    assert("back_out"@.len() == 8);
    assert("back_in"@.len() == 7);
    assert("back_in_out"@.len() == 11);
    assert("ease_in"@[0] != "back_in"@[0]);
    assert("ease_out"@[0] != "back_out"@[0]);
    assert("ease_in_out"@[1] != "elastic_out"@[1]);
    assert("ease_in_out"@[0] != "back_in_out"@[0]);
    assert("bounce_out"@[0] != "elastic_in"@[0]);
    assert("elastic_out"@[0] != "back_in_out"@[0]);
}

/// `cover`, `contain` and `fill` name their fits, and `none` (which the
/// renderer does not offer) names none.
pub proof fn lemma_object_fit_names()
    ensures
        object_fit_of("cover"@) == Some(ObjectFit::Cover),
        object_fit_of("contain"@) == Some(ObjectFit::Contain),
        object_fit_of("fill"@) == Some(ObjectFit::Fill),
        object_fit_of("none"@) is None,
{
    reveal_strlit("cover");
    reveal_strlit("contain");
    reveal_strlit("fill");
    reveal_strlit("none");
    assert("cover"@.len() == 5);
    assert("contain"@.len() == 7);
    assert("fill"@.len() == 4);
    assert("none"@.len() == 4);
    assert("fill"@[0] != "none"@[0]);
}

} // verus!
