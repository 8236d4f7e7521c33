//! A verified UTF-8 validator.
//!
//! Literal labels must hold valid UTF-8 text; a label that does not is a
//! decode error.  This validator is executable code proved equivalent to the
//! mathematical definition of UTF-8 validity in [`vstd::utf8`]: no outside
//! code is trusted for the check.

use vstd::prelude::*;
use vstd::utf8::{
    is_continuation_byte, is_leading_byte_width_1, is_leading_byte_width_2,
    is_leading_byte_width_3, is_leading_byte_width_4, length_of_first_scalar, pop_first_scalar,
    valid_first_scalar, valid_leading_and_continuation_bytes_first_codepoint, valid_utf8,
    codepoint_width_1, codepoint_width_2, codepoint_width_3, codepoint_width_4,
    decode_first_codepoint,
};

verus! {

/// Whether `v` is a valid UTF-8 encoding, decided byte by byte.
pub fn is_valid_utf8(v: &Vec<u8>) -> (ok: bool)
    ensures
        ok == valid_utf8(v@),
{
    let n = v.len();
    proof {
        assert(v@.skip(0) =~= v@);
    }
    let mut i: usize = 0;
    while i < n
        invariant
            i <= n,
            n == v@.len(),
            valid_utf8(v@) == valid_utf8(v@.skip(i as int)),
        decreases n - i,
    {
        let ghost s = v@.skip(i as int);
        proof {
            assert(s.len() == n - i);
            assert(s[0] == v@[i as int]);
        }
        let b0 = v[i];
        let w: usize;
        if b0 < 0x80 {
            // One-byte encoding: always a valid scalar.
            proof {
                assert(is_leading_byte_width_1(s[0]));
                assert(codepoint_width_1(s[0]) == (b0 & 0x7f) as u32);
                assert(b0 & 0x7f <= 0x7f) by (bit_vector);
                assert(length_of_first_scalar(s) == 1);
                assert(valid_first_scalar(s));
            }
            w = 1;
        } else if b0 < 0xc0 {
            // A continuation byte cannot lead a scalar.
            proof {
                assert(!valid_leading_and_continuation_bytes_first_codepoint(s));
                assert(!valid_first_scalar(s));
                assert(!valid_utf8(s));
            }
            return false;
        } else if b0 < 0xe0 {
            // Two-byte encoding.
            if n - i < 2 || !is_continuation(v[i + 1]) {
                proof {
                    assert(!valid_leading_and_continuation_bytes_first_codepoint(s));
                    assert(!valid_utf8(s));
                }
                return false;
            }
            let b1 = v[i + 1];
            let cp: u32 = (((b0 & 0x1f) as u32) << 6u32) | ((b1 & 0x3f) as u32);
            proof {
                assert(s[1] == v@[i + 1]);
                assert(is_leading_byte_width_2(s[0]));
                assert(decode_first_codepoint(s) == codepoint_width_2(b0, b1));
                assert(codepoint_width_2(b0, b1) == cp);
                assert(cp <= 0x7ff) by (bit_vector)
                    requires
                        cp == ((((b0 & 0x1f) as u32) << 6u32) | ((b1 & 0x3f) as u32)),
                ;
            }
            if cp < 0x80 {
                proof {
                    assert(!valid_first_scalar(s));
                    assert(!valid_utf8(s));
                }
                return false;
            }
            proof {
                assert(valid_first_scalar(s));
            }
            w = 2;
        } else if b0 < 0xf0 {
            // Three-byte encoding.
            if n - i < 3 || !is_continuation(v[i + 1]) || !is_continuation(v[i + 2]) {
                proof {
                    assert(!valid_leading_and_continuation_bytes_first_codepoint(s));
                    assert(!valid_utf8(s));
                }
                return false;
            }
            let b1 = v[i + 1];
            let b2 = v[i + 2];
            let cp: u32 = (((b0 & 0x0f) as u32) << 12u32) | (((b1 & 0x3f) as u32) << 6u32) | ((b2
                & 0x3f) as u32);
            proof {
                assert(s[1] == v@[i + 1] && s[2] == v@[i + 2]);
                assert(is_leading_byte_width_3(s[0]));
                assert(decode_first_codepoint(s) == codepoint_width_3(b0, b1, b2));
                assert(codepoint_width_3(b0, b1, b2) == cp);
            }
            if cp < 0x800 || (cp >= 0xd800 && cp <= 0xdfff) {
                proof {
                    assert(!valid_first_scalar(s));
                    assert(!valid_utf8(s));
                }
                return false;
            }
            proof {
                assert(cp <= 0xffff) by (bit_vector)
                    requires
                        cp == ((((b0 & 0x0f) as u32) << 12u32) | (((b1 & 0x3f) as u32) << 6u32) | (
                        (b2 & 0x3f) as u32)),
                ;
                assert(valid_first_scalar(s));
            }
            w = 3;
        } else if b0 < 0xf8 {
            // Four-byte encoding.
            if n - i < 4 || !is_continuation(v[i + 1]) || !is_continuation(v[i + 2])
                || !is_continuation(v[i + 3]) {
                proof {
                    assert(!valid_leading_and_continuation_bytes_first_codepoint(s));
                    assert(!valid_utf8(s));
                }
                return false;
            }
            let b1 = v[i + 1];
            let b2 = v[i + 2];
            let b3 = v[i + 3];
            let cp: u32 = (((b0 & 0x07) as u32) << 18u32) | (((b1 & 0x3f) as u32) << 12u32) | (((b2
                & 0x3f) as u32) << 6u32) | ((b3 & 0x3f) as u32);
            proof {
                assert(s[1] == v@[i + 1] && s[2] == v@[i + 2] && s[3] == v@[i + 3]);
                assert(is_leading_byte_width_4(s[0]));
                assert(decode_first_codepoint(s) == codepoint_width_4(b0, b1, b2, b3));
                assert(codepoint_width_4(b0, b1, b2, b3) == cp);
            }
            if cp < 0x10000 || cp > 0x10ffff {
                proof {
                    assert(!valid_first_scalar(s));
                    assert(!valid_utf8(s));
                }
                return false;
            }
            proof {
                assert(valid_first_scalar(s));
            }
            w = 4;
        } else {
            // 0xf8 and above lead no valid encoding.
            proof {
                assert(!valid_leading_and_continuation_bytes_first_codepoint(s));
                assert(!valid_utf8(s));
            }
            return false;
        }
        proof {
            assert(length_of_first_scalar(s) == w);
            assert(pop_first_scalar(s) =~= v@.skip(i + w));
            assert(valid_utf8(s) == valid_utf8(v@.skip(i + w)));
        }
        i = i + w;
    }
    proof {
        assert(v@.skip(n as int) =~= Seq::<u8>::empty());
        assert(valid_utf8(v@.skip(n as int)));
    }
    true
}

/// Whether one byte has the continuation-byte form `10xxxxxx`.
fn is_continuation(b: u8) -> (r: bool)
    ensures
        r == is_continuation_byte(b),
{
    0x80 <= b && b <= 0xbf
}

} // verus!
