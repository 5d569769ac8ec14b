//! Decoding of program text into instructions.
//!
//! Program text is read byte by byte; space, tab and line feed are the only
//! significant bytes, everything else is a comment. The token stream is
//! decoded by a prefix code of one to three tokens per instruction, with
//! number and label literals written as a sign token, bits least significant
//! first, and a line-feed terminator.
use vstd::prelude::*;

use crate::Instruction;
use crate::Label;
use crate::Token;

verus! {

use vstd::arithmetic::power2::pow2;
use vstd::math::abs;
use vstd::pervasive::unreached;

/// Why a parse was rejected.
#[derive(Clone, Copy, PartialEq, Eq, Structural, Debug)]
pub enum ParseErrorKind {
    /// A required token, number or label ran out of input.
    UnexpectedEof,
    /// A complete token sequence matches no instruction.
    UnknownInstruction,
}

/// A rejected parse: the kind of failure and a human-readable message.
#[derive(PartialEq, Eq, Debug)]
pub struct ParseError {
    pub kind: ParseErrorKind,
    pub message: &'static str,
}

impl ParseError {
    fn err<T>(kind: ParseErrorKind, message: &'static str) -> (r: Result<T, ParseError>)
        ensures
            r matches Err(e) && e.kind == kind,
    {
        Err(ParseError { kind, message })
    }
}

/// Whether a byte is one of the three significant characters.
pub open spec fn is_control_byte(b: u8) -> bool {
    b == 32 || b == 9 || b == 10
}

/// The token a control byte denotes.
pub open spec fn token_of_byte(b: u8) -> Token
    recommends
        is_control_byte(b),
{
    if b == 32 {
        Token::Space
    } else if b == 9 {
        Token::Tab
    } else {
        Token::LineFeed
    }
}

/// The token stream of a byte sequence: every control byte in order, all
/// comment bytes skipped.
pub open spec fn lex(s: Seq<u8>) -> Seq<Token>
    decreases s.len(),
{
    if s.len() == 0 {
        Seq::empty()
    } else if is_control_byte(s[0]) {
        seq![token_of_byte(s[0])] + lex(s.drop_first())
    } else {
        lex(s.drop_first())
    }
}

/// The control bytes of a byte sequence, in order, comment bytes removed.
pub open spec fn control_bytes(s: Seq<u8>) -> Seq<u8>
    decreases s.len(),
{
    if s.len() == 0 {
        Seq::empty()
    } else if is_control_byte(s[0]) {
        seq![s[0]] + control_bytes(s.drop_first())
    } else {
        control_bytes(s.drop_first())
    }
}

/// Lexing skips comments: the token stream of any text equals the token
/// stream of its control bytes alone, so interleaved comment characters
/// never change what is lexed.
pub proof fn lemma_lex_skips_comments(s: Seq<u8>)
    ensures
        lex(s) == lex(control_bytes(s)),
    decreases s.len(),
{
    if s.len() == 0 {
    } else {
        lemma_lex_skips_comments(s.drop_first());
        if is_control_byte(s[0]) {
            let t = seq![s[0]] + control_bytes(s.drop_first());
            assert(control_bytes(s) == t);
            assert(t.len() >= 1 && t[0] == s[0]);
            assert(t.drop_first() =~= control_bytes(s.drop_first()));
            assert(lex(t) == seq![token_of_byte(s[0])] + lex(control_bytes(s.drop_first())));
        }
    }
}

/// Unrolls `lex` one position forward from index `i` of `s`.
proof fn lemma_lex_step(s: Seq<u8>, i: int)
    requires
        0 <= i < s.len(),
    ensures
        lex(s.skip(i)) == if is_control_byte(s[i]) {
            seq![token_of_byte(s[i])] + lex(s.skip(i + 1))
        } else {
            lex(s.skip(i + 1))
        },
{
    assert(s.skip(i).len() == s.len() - i);
    assert(s.skip(i)[0] == s[i]);
    assert(s.skip(i).drop_first() =~= s.skip(i + 1));
}

/// Scans forward from `*pos`, skipping comment bytes, and returns the first
/// control byte as its token, or `None` when the input holds no further
/// control byte. `*pos` is left just past the byte that produced the token.
pub fn next_token(src: &[u8], pos: &mut usize) -> (t: Option<Token>)
    requires
        *old(pos) <= src@.len(),
    ensures
        *old(pos) <= *final(pos) <= src@.len(),
        match t {
            Some(tok) => *final(pos) > *old(pos) && lex(src@.skip(*old(pos) as int)) == seq![tok]
                + lex(src@.skip(*final(pos) as int)),
            None => *final(pos) == src@.len() && lex(src@.skip(*old(pos) as int))
                == Seq::<Token>::empty(),
        },
{
    let mut i: usize = *pos;
    let n: usize = src.len();
    while i < n
        invariant
            *old(pos) <= i <= n,
            n == src@.len(),
            lex(src@.skip(*old(pos) as int)) == lex(src@.skip(i as int)),
        decreases n - i,
    {
        let b = src[i];
        proof {
            lemma_lex_step(src@, i as int);
        }
        i = i + 1;
        if b == 32u8 {
            *pos = i;
            return Some(Token::Space);
        }
        if b == 9u8 {
            *pos = i;
            return Some(Token::Tab);
        }
        if b == 10u8 {
            *pos = i;
            return Some(Token::LineFeed);
        }
    }
    *pos = i;
    proof {
        assert(src@.skip(i as int) =~= Seq::<u8>::empty());
    }
    None
}

/// Position of the first line-feed token in `t`, or `t.len()` when there is
/// none.
pub open spec fn lf_pos(t: Seq<Token>) -> int
    decreases t.len(),
{
    if t.len() == 0 {
        0
    } else if t[0] == Token::LineFeed {
        0
    } else {
        1 + lf_pos(t.drop_first())
    }
}

/// The magnitude a bit string denotes, least significant bit first: a tab is
/// a one, any other token a zero.
pub open spec fn bits_value(bits: Seq<Token>) -> nat
    decreases bits.len(),
{
    if bits.len() == 0 {
        0
    } else {
        (if bits[0] == Token::Tab {
            1nat
        } else {
            0nat
        }) + 2 * bits_value(bits.drop_first())
    }
}

/// The two's-complement 64-bit value of a mathematical integer: the
/// representative of `x` modulo 2^64 that lies in i64's range.
pub open spec fn wrap_i64(x: int) -> i64 {
    let m = x % 0x1_0000_0000_0000_0000;
    if m >= 0x8000_0000_0000_0000 {
        (m - 0x1_0000_0000_0000_0000) as i64
    } else {
        m as i64
    }
}

/// Whether `t` begins with a complete number literal: a sign token followed
/// by bit tokens and a line-feed terminator.
pub open spec fn number_ok(t: Seq<Token>) -> bool {
    t.len() >= 1 && lf_pos(t.drop_first()) < t.drop_first().len()
}

/// How many tokens the literal occupies: sign, bits and terminator.
pub open spec fn number_len(t: Seq<Token>) -> int
    recommends
        number_ok(t),
{
    2 + lf_pos(t.drop_first())
}

/// The value the literal denotes: the bit string read least significant bit
/// first, negated when the sign token is a tab, reduced into i64's range.
pub open spec fn number_value(t: Seq<Token>) -> i64
    recommends
        number_ok(t),
{
    let bits = t.drop_first().take(lf_pos(t.drop_first()));
    if t[0] == Token::Tab {
        wrap_i64(-(bits_value(bits) as int))
    } else {
        wrap_i64(bits_value(bits) as int)
    }
}

/// `lf_pos` lies within bounds and points at a line feed when one exists.
proof fn lemma_lf_pos_bounds(t: Seq<Token>)
    ensures
        0 <= lf_pos(t) <= t.len(),
        lf_pos(t) < t.len() ==> t[lf_pos(t)] == Token::LineFeed,
    decreases t.len(),
{
    if t.len() == 0 {
    } else if t[0] == Token::LineFeed {
    } else {
        lemma_lf_pos_bounds(t.drop_first());
        if lf_pos(t) < t.len() {
            assert(t.drop_first()[lf_pos(t.drop_first())] == t[lf_pos(t)]);
        }
    }
}

/// The first line feed of `t` stands at `i` exactly when `t[i]` is a line
/// feed and nothing before it is.
proof fn lemma_lf_pos_at(t: Seq<Token>, i: int)
    requires
        0 <= i < t.len(),
        t[i] == Token::LineFeed,
        forall|j: int| 0 <= j < i ==> t[j] != Token::LineFeed,
    ensures
        lf_pos(t) == i,
    decreases i,
{
    if i == 0 {
    } else {
        assert(t[0] != Token::LineFeed);
        let d = t.drop_first();
        assert(d[i - 1] == t[i]);
        assert(forall|j: int| 0 <= j < i - 1 ==> d[j] == t[j + 1] && t[j + 1] != Token::LineFeed);
        lemma_lf_pos_at(d, i - 1);
    }
}

/// A bit string's magnitude is below 2^length.
proof fn lemma_bits_value_bound(bits: Seq<Token>)
    ensures
        bits_value(bits) < pow2(bits.len()),
    decreases bits.len(),
{
    if bits.len() == 0 {
        vstd::arithmetic::power2::lemma2_to64();
    } else {
        lemma_bits_value_bound(bits.drop_first());
        vstd::arithmetic::power2::lemma_pow2_unfold(bits.len());
    }
}

/// Reading one more bit adds its weight: bit `n` contributes 2^n.
proof fn lemma_bits_value_take_step(bits: Seq<Token>, n: int)
    requires
        0 <= n < bits.len(),
    ensures
        bits_value(bits.take(n + 1)) == bits_value(bits.take(n)) + if bits[n] == Token::Tab {
            pow2(n as nat)
        } else {
            0nat
        },
    decreases n,
{
    if n == 0 {
        assert(bits.take(0) =~= Seq::<Token>::empty());
        assert(bits.take(1) =~= seq![bits[0]]);
        assert(bits.take(1).drop_first() =~= Seq::<Token>::empty());
        vstd::arithmetic::power2::lemma2_to64();
    } else {
        let b = bits.drop_first();
        lemma_bits_value_take_step(b, n - 1);
        assert(bits.take(n + 1)[0] == bits[0]);
        assert(bits.take(n)[0] == bits[0]);
        assert(bits.take(n + 1).drop_first() =~= b.take(n));
        assert(bits.take(n).drop_first() =~= b.take(n - 1));
        assert(b[n - 1] == bits[n]);
        vstd::arithmetic::power2::lemma_pow2_unfold(n as nat);
        assert(bits_value(bits.take(n + 1)) == (if bits[0] == Token::Tab {
            1nat
        } else {
            0nat
        }) + 2 * bits_value(b.take(n)));
        assert(bits_value(bits.take(n)) == (if bits[0] == Token::Tab {
            1nat
        } else {
            0nat
        }) + 2 * bits_value(b.take(n - 1)));
    }
}

/// Like [`next_token`], but exhausted input is an explicit error.
pub fn expect_a_token(src: &[u8], pos: &mut usize) -> (r: Result<Token, ParseError>)
    requires
        *old(pos) <= src@.len(),
    ensures
        *old(pos) <= *final(pos) <= src@.len(),
        match r {
            Ok(tok) => *final(pos) > *old(pos) && lex(src@.skip(*old(pos) as int)) == seq![tok]
                + lex(src@.skip(*final(pos) as int)),
            Err(e) => e.kind == ParseErrorKind::UnexpectedEof && lex(
                src@.skip(*old(pos) as int),
            ) == Seq::<Token>::empty(),
        },
{
    match next_token(src, pos) {
        Some(token) => Ok(token),
        None => ParseError::err(
            ParseErrorKind::UnexpectedEof,
            "Expected a token; but no more are available",
        ),
    }
}

/// Reads a number literal: a sign token (tab for negative), bit tokens least
/// significant first, and a line-feed terminator. An empty bit string
/// denotes zero; a magnitude beyond 64 bits is reduced into i64's range.
fn parse_number(src: &[u8], pos: &mut usize) -> (r: Result<i64, ParseError>)
    requires
        *old(pos) <= src@.len(),
    ensures
        *old(pos) <= *final(pos) <= src@.len(),
        ({
            let t = lex(src@.skip(*old(pos) as int));
            match r {
                Ok(v) => number_ok(t) && v == number_value(t) && lex(
                    src@.skip(*final(pos) as int),
                ) == t.skip(number_len(t)),
                Err(e) => !number_ok(t) && e.kind == ParseErrorKind::UnexpectedEof,
            }
        }),
{
    let ghost t = lex(src@.skip(*old(pos) as int));
    let mut i: usize = *pos;
    let sign = match expect_a_token(src, &mut i) {
        Ok(tok) => tok,
        Err(e) => {
            *pos = i;
            return Err(e);
        },
    };
    let ghost rest = t.drop_first();
    proof {
        assert(rest =~= lex(src@.skip(i as int)));
    }
    let mut val: u64 = 0;
    let mut pow: u64 = 0;
    let ghost mut n: int = 0;
    loop
        invariant
            *old(pos) < i <= src@.len(),
            0 <= n <= rest.len(),
            lex(src@.skip(i as int)) == rest.skip(n),
            forall|j: int| 0 <= j < n ==> rest[j] != Token::LineFeed,
            pow == if n <= 64 {
                n
            } else {
                64int
            },
            val as int == bits_value(rest.take(n)) as int % 0x1_0000_0000_0000_0000,
            t == seq![sign] + rest,
            t == lex(src@.skip(*old(pos) as int)),
        decreases src@.len() - i,
    {
        let tok = match expect_a_token(src, &mut i) {
            Ok(tok) => tok,
            Err(e) => {
                proof {
                    assert(rest.skip(n) =~= Seq::<Token>::empty());
                    assert(n == rest.len());
                    lemma_lf_pos_bounds(rest);
                    assert(t.drop_first() =~= rest);
                    assert(!number_ok(t));
                }
                *pos = i;
                return Err(e);
            },
        };
        proof {
            assert(rest.skip(n).len() > 0);
            assert(rest.skip(n)[0] == rest[n]);
            assert(rest.skip(n).drop_first() =~= rest.skip(n + 1));
        }
        match tok {
            Token::LineFeed => {
                proof {
                    lemma_lf_pos_at(rest, n);
                }
                let ghost bits = rest.take(n);
                let ghost m = bits_value(bits) as int;
                proof {
                    assert(t.drop_first() =~= rest);
                    assert(number_ok(t));
                    assert(number_len(t) == 2 + n);
                    assert(number_value(t) == if sign == Token::Tab {
                        wrap_i64(-m)
                    } else {
                        wrap_i64(m)
                    });
                    assert(t.skip(2 + n) =~= rest.skip(n + 1));
                    if n <= 64 {
                        lemma_bits_value_bound(bits);
                        vstd::arithmetic::power2::lemma2_to64();
                        if n < 64 {
                            vstd::arithmetic::power2::lemma_pow2_strictly_increases(
                                n as nat,
                                64,
                            );
                        }
                        vstd::arithmetic::div_mod::lemma_small_mod(
                            bits_value(bits),
                            0x1_0000_0000_0000_0000,
                        );
                    }
                }
                *pos = i;
                if sign == Token::Tab {
                    // the two's-complement negation of the accumulated
                    // magnitude
                    proof {
                        vstd::arithmetic::div_mod::lemma_fundamental_div_mod(
                            m,
                            0x1_0000_0000_0000_0000,
                        );
                        let q = m / 0x1_0000_0000_0000_0000;
                        vstd::arithmetic::div_mod::lemma_mod_multiples_vanish(
                            -q - 1,
                            0x1_0000_0000_0000_0000 - val as int,
                            0x1_0000_0000_0000_0000,
                        );
                        if val > 0 {
                            vstd::arithmetic::div_mod::lemma_small_mod(
                                (0x1_0000_0000_0000_0000 - val as int) as nat,
                                0x1_0000_0000_0000_0000,
                            );
                        } else {
                            vstd::arithmetic::div_mod::lemma_mod_multiples_vanish(
                                1,
                                0,
                                0x1_0000_0000_0000_0000,
                            );
                            vstd::arithmetic::div_mod::lemma_small_mod(
                                0,
                                0x1_0000_0000_0000_0000,
                            );
                        }
                    }
                    if val == 0 {
                        return Ok(0);
                    } else if val < 0x8000_0000_0000_0000 {
                        return Ok(-(val as i64));
                    } else if val == 0x8000_0000_0000_0000 {
                        return Ok(i64::MIN);
                    } else {
                        return Ok(((0xFFFF_FFFF_FFFF_FFFF - val) + 1) as i64);
                    }
                } else {
                    if val < 0x8000_0000_0000_0000 {
                        return Ok(val as i64);
                    } else {
                        return Ok(i64::MIN + ((val - 0x8000_0000_0000_0000) as i64));
                    }
                }
            },
            _ => {
                proof {
                    lemma_bits_value_take_step(rest, n);
                    let bv = bits_value(rest.take(n)) as int;
                    if n < 64 {
                        lemma_bits_value_bound(rest.take(n));
                        vstd::arithmetic::power2::lemma2_to64();
                        vstd::arithmetic::power2::lemma_pow2_strictly_increases(n as nat, 64);
                        vstd::arithmetic::div_mod::lemma_small_mod(
                            bits_value(rest.take(n)),
                            0x1_0000_0000_0000_0000,
                        );
                        vstd::bits::lemma_u64_pow2_no_overflow(pow as nat);
                        vstd::bits::lemma_u64_shl_is_mul(1u64, pow);
                        lemma_bits_value_bound(rest.take(n + 1));
                        if n + 1 < 64 {
                            vstd::arithmetic::power2::lemma_pow2_strictly_increases(
                                (n + 1) as nat,
                                64,
                            );
                        }
                        vstd::arithmetic::div_mod::lemma_small_mod(
                            bits_value(rest.take(n + 1)),
                            0x1_0000_0000_0000_0000,
                        );
                    } else {
                        vstd::arithmetic::power2::lemma_pow2_adds((n - 64) as nat, 64);
                        vstd::arithmetic::power2::lemma2_to64();
                        vstd::arithmetic::div_mod::lemma_mod_multiples_vanish(
                            pow2((n - 64) as nat) as int,
                            bv,
                            0x1_0000_0000_0000_0000,
                        );
                    }
                }
                if tok == Token::Tab && pow < 64 {
                    val = val + (1u64 << pow);
                }
                if pow < 64 {
                    pow = pow + 1;
                }
                proof {
                    n = n + 1;
                }
            },
        }
    }
}

/// `wrap_i64` acts as the identity on i64's range and shifts a value at
/// most one width away back into it.
pub proof fn lemma_wrap_i64_near(x: int)
    requires
        -0x1_0000_0000_0000_0000 <= x < 0x1_0000_0000_0000_0000,
    ensures
        wrap_i64(x) as int == if x >= 0x8000_0000_0000_0000 {
            x - 0x1_0000_0000_0000_0000
        } else if x >= -0x8000_0000_0000_0000 {
            x
        } else {
            x + 0x1_0000_0000_0000_0000
        },
{
    if x >= 0 {
        vstd::arithmetic::div_mod::lemma_small_mod(x as nat, 0x1_0000_0000_0000_0000);
    } else {
        vstd::arithmetic::div_mod::lemma_mod_multiples_vanish(1, x, 0x1_0000_0000_0000_0000);
        vstd::arithmetic::div_mod::lemma_small_mod(
            (x + 0x1_0000_0000_0000_0000) as nat,
            0x1_0000_0000_0000_0000,
        );
    }
}

/// Lexing distributes over concatenation.
pub proof fn lemma_lex_append(a: Seq<u8>, b: Seq<u8>)
    ensures
        lex(a + b) == lex(a) + lex(b),
    decreases a.len(),
{
    if a.len() == 0 {
        assert(a + b =~= b);
        assert(lex(a) + lex(b) =~= lex(b));
    } else {
        lemma_lex_append(a.drop_first(), b);
        assert((a + b).len() > 0);
        assert((a + b)[0] == a[0]);
        assert((a + b).drop_first() =~= a.drop_first() + b);
        if is_control_byte(a[0]) {
            assert(seq![token_of_byte(a[0])] + (lex(a.drop_first()) + lex(b)) =~= (seq![
                token_of_byte(a[0]),
            ] + lex(a.drop_first())) + lex(b));
        }
    }
}

/// The token encoding of a magnitude, least significant bit first: a tab
/// for each one bit, a space for each zero bit.
pub open spec fn encode_bits(m: nat) -> Seq<Token>
    decreases m,
{
    if m == 0 {
        Seq::empty()
    } else {
        seq![
            if m % 2 == 1 {
                Token::Tab
            } else {
                Token::Space
            },
        ] + encode_bits(m / 2)
    }
}

/// The token encoding of a number literal: a sign token, the magnitude's
/// bits least significant first, and a line-feed terminator.
pub open spec fn encode_number_toks(n: int) -> Seq<Token> {
    (if n < 0 {
        seq![Token::Tab]
    } else {
        seq![Token::Space]
    }) + encode_bits(abs(n)) + seq![Token::LineFeed]
}

/// An encoded magnitude never contains the terminator.
proof fn lemma_encode_bits_no_lf(m: nat)
    ensures
        forall|j: int| 0 <= j < encode_bits(m).len() ==> encode_bits(m)[j] != Token::LineFeed,
    decreases m,
{
    if m > 0 {
        lemma_encode_bits_no_lf(m / 2);
        assert(forall|j: int|
            1 <= j < encode_bits(m).len() ==> encode_bits(m)[j] == encode_bits(m / 2)[j - 1]);
    }
}

/// Decoding an encoded magnitude gives the magnitude back.
proof fn lemma_encode_bits_value(m: nat)
    ensures
        bits_value(encode_bits(m)) == m,
    decreases m,
{
    if m > 0 {
        lemma_encode_bits_value(m / 2);
        let bits = encode_bits(m);
        assert(bits.drop_first() =~= encode_bits(m / 2));
        vstd::arithmetic::div_mod::lemma_fundamental_div_mod(m as int, 2);
    }
}

/// Round trip of the number encoding: for every machine word, decoding
/// the sign-bits-terminator encoding returns exactly that word, and the
/// literal occupies the whole encoding.
pub proof fn lemma_number_round_trip(n: i64)
    ensures
        number_ok(encode_number_toks(n as int)),
        number_len(encode_number_toks(n as int)) == encode_number_toks(n as int).len(),
        number_value(encode_number_toks(n as int)) == n,
{
    let m = abs(n as int);
    let bits = encode_bits(m);
    let t = encode_number_toks(n as int);
    lemma_encode_bits_no_lf(m);
    lemma_encode_bits_value(m);
    assert(t.drop_first() =~= bits + seq![Token::LineFeed]);
    let d = t.drop_first();
    assert(d[bits.len() as int] == Token::LineFeed);
    assert(forall|j: int| 0 <= j < bits.len() ==> d[j] == bits[j]);
    lemma_lf_pos_at(d, bits.len() as int);
    assert(d.take(bits.len() as int) =~= bits);
    lemma_wrap_i64_near(n as int);
    if n < 0 {
        assert(number_value(t) == wrap_i64(-(m as int)));
    } else {
        assert(number_value(t) == wrap_i64(m as int));
    }
}

/// Writes the byte encoding of a number literal: a sign byte, the
/// magnitude's bits least significant first, and a line-feed terminator.
pub fn encode_number(n: i64) -> (out: Vec<u8>)
    ensures
        lex(out@) == encode_number_toks(n as int),
        forall|j: int| 0 <= j < out@.len() ==> is_control_byte(#[trigger] out@[j]),
{
    let ghost sign_toks = if n < 0 {
        seq![Token::Tab]
    } else {
        seq![Token::Space]
    };
    let mut out: Vec<u8> = Vec::new();
    let sign_byte: u8 = if n < 0 {
        9u8
    } else {
        32u8
    };
    out.push(sign_byte);
    proof {
        assert(out@.drop_first() =~= Seq::<u8>::empty());
        assert(out@.len() == 1);
        assert(out@[0] == sign_byte);
        assert(lex(Seq::<u8>::empty()) == Seq::<Token>::empty());
        assert(lex(out@) == seq![token_of_byte(sign_byte)] + lex(out@.drop_first()));
        assert(lex(out@) =~= sign_toks);
    }
    let ghost mag0 = abs(n as int);
    let mut m: u64 = if n == i64::MIN {
        0x8000_0000_0000_0000u64
    } else if n < 0 {
        (-n) as u64
    } else {
        n as u64
    };
    while m > 0
        invariant
            lex(out@) + encode_bits(m as nat) == sign_toks + encode_bits(mag0),
            forall|j: int| 0 <= j < out@.len() ==> is_control_byte(#[trigger] out@[j]),
        decreases m,
    {
        let ghost before = out@;
        let bit_byte: u8 = if m % 2 == 1 {
            9u8
        } else {
            32u8
        };
        out.push(bit_byte);
        proof {
            assert(out@ =~= before + seq![bit_byte]);
            lemma_lex_append(before, seq![bit_byte]);
            assert(seq![bit_byte].drop_first() =~= Seq::<u8>::empty());
            assert(seq![bit_byte].len() == 1);
            assert(seq![bit_byte][0] == bit_byte);
            assert(is_control_byte(bit_byte));
            assert(lex(Seq::<u8>::empty()) == Seq::<Token>::empty());
            assert(lex(seq![bit_byte]) == seq![token_of_byte(bit_byte)] + lex(
                seq![bit_byte].drop_first(),
            ));
            assert(lex(seq![bit_byte]) =~= seq![token_of_byte(bit_byte)]);
            assert(encode_bits(m as nat) =~= seq![token_of_byte(bit_byte)] + encode_bits(
                (m / 2) as nat,
            ));
            assert((lex(before) + seq![token_of_byte(bit_byte)]) + encode_bits((m / 2) as nat)
                =~= lex(before) + (seq![token_of_byte(bit_byte)] + encode_bits((m / 2) as nat)));
        }
        m = m / 2;
    }
    let ghost before = out@;
    out.push(10u8);
    proof {
        assert(out@ =~= before + seq![10u8]);
        lemma_lex_append(before, seq![10u8]);
        assert(seq![10u8].drop_first() =~= Seq::<u8>::empty());
        assert(lex(seq![10u8]) =~= seq![Token::LineFeed]);
        assert(encode_bits(0nat) =~= Seq::<Token>::empty());
        assert(lex(before) + encode_bits(0nat) =~= lex(before));
        assert(lex(before) =~= sign_toks + encode_bits(mag0));
        assert((sign_toks + encode_bits(mag0)) + seq![Token::LineFeed] =~= encode_number_toks(
            n as int,
        ));
    }
    out
}

/// The outcome of decoding one instruction from a token stream.
pub enum InsnParse {
    /// The instruction, and how many tokens it occupied.
    Decoded(Instruction, int),
    /// The tokens ran out before the instruction was complete.
    ShortInput,
    /// A complete token sequence that matches no instruction.
    BadSequence,
}

/// Shifts a decode result by `k` tokens already consumed.
pub open spec fn with_offset(p: InsnParse, k: int) -> InsnParse {
    match p {
        InsnParse::Decoded(i, n) => InsnParse::Decoded(i, n + k),
        other => other,
    }
}

/// Decodes a stack instruction from the tokens after the space category
/// prefix.
pub open spec fn stack_insn(t: Seq<Token>) -> InsnParse {
    if t.len() == 0 {
        InsnParse::ShortInput
    } else if t[0] == Token::Space {
        if number_ok(t.drop_first()) {
            InsnParse::Decoded(
                Instruction::PushNrOnStack(number_value(t.drop_first())),
                1 + number_len(t.drop_first()),
            )
        } else {
            InsnParse::ShortInput
        }
    } else if t.len() == 1 {
        InsnParse::ShortInput
    } else {
        match (t[0], t[1]) {
            (Token::LineFeed, Token::Space) => InsnParse::Decoded(
                Instruction::DuplicateTopStack,
                2,
            ),
            (Token::LineFeed, Token::Tab) => InsnParse::Decoded(Instruction::SwapTopTwoOnStack, 2),
            (Token::LineFeed, Token::LineFeed) => InsnParse::Decoded(
                Instruction::DiscardTopOfStack,
                2,
            ),
            (Token::Tab, Token::Space) => if number_ok(t.skip(2)) {
                InsnParse::Decoded(
                    Instruction::CopyNthOnTop(number_value(t.skip(2))),
                    2 + number_len(t.skip(2)),
                )
            } else {
                InsnParse::ShortInput
            },
            (Token::Tab, Token::LineFeed) => if number_ok(t.skip(2)) {
                InsnParse::Decoded(
                    Instruction::SlideNOfTopOfStackKeepTopItem(number_value(t.skip(2))),
                    2 + number_len(t.skip(2)),
                )
            } else {
                InsnParse::ShortInput
            },
            (Token::Tab, Token::Tab) => InsnParse::BadSequence,
            _ => InsnParse::BadSequence,
        }
    }
}

/// Decodes an arithmetic instruction from the tokens after the tab-space
/// category prefix.
pub open spec fn arith_insn(t: Seq<Token>) -> InsnParse {
    if t.len() < 2 {
        InsnParse::ShortInput
    } else {
        match (t[0], t[1]) {
            (Token::Space, Token::Space) => InsnParse::Decoded(Instruction::Addition, 2),
            (Token::Space, Token::Tab) => InsnParse::Decoded(Instruction::Substraction, 2),
            (Token::Space, Token::LineFeed) => InsnParse::Decoded(Instruction::Multiplication, 2),
            (Token::Tab, Token::Space) => InsnParse::Decoded(Instruction::IntegerDivision, 2),
            (Token::Tab, Token::Tab) => InsnParse::Decoded(Instruction::Modulo, 2),
            _ => InsnParse::BadSequence,
        }
    }
}

/// Decodes a heap instruction from the token after the tab-tab category
/// prefix.
pub open spec fn heap_insn(t: Seq<Token>) -> InsnParse {
    if t.len() == 0 {
        InsnParse::ShortInput
    } else {
        match t[0] {
            Token::Space => InsnParse::Decoded(Instruction::StoreInHeap, 1),
            Token::Tab => InsnParse::Decoded(Instruction::RetreiveFomHeap, 1),
            Token::LineFeed => InsnParse::BadSequence,
        }
    }
}

/// Decodes a flow-control instruction from the tokens after the line-feed
/// category prefix.
pub open spec fn flow_insn(t: Seq<Token>) -> InsnParse {
    if t.len() < 2 {
        InsnParse::ShortInput
    } else {
        match (t[0], t[1]) {
            (Token::Space, Token::Space) => if number_ok(t.skip(2)) {
                InsnParse::Decoded(
                    Instruction::MarkLocation(number_value(t.skip(2))),
                    2 + number_len(t.skip(2)),
                )
            } else {
                InsnParse::ShortInput
            },
            (Token::Space, Token::Tab) => if number_ok(t.skip(2)) {
                InsnParse::Decoded(
                    Instruction::CallSubroutine(number_value(t.skip(2))),
                    2 + number_len(t.skip(2)),
                )
            } else {
                InsnParse::ShortInput
            },
            (Token::Space, Token::LineFeed) => if number_ok(t.skip(2)) {
                InsnParse::Decoded(
                    Instruction::Jmp(number_value(t.skip(2))),
                    2 + number_len(t.skip(2)),
                )
            } else {
                InsnParse::ShortInput
            },
            (Token::Tab, Token::Space) => if number_ok(t.skip(2)) {
                InsnParse::Decoded(
                    Instruction::JmpTopZero(number_value(t.skip(2))),
                    2 + number_len(t.skip(2)),
                )
            } else {
                InsnParse::ShortInput
            },
            (Token::Tab, Token::Tab) => if number_ok(t.skip(2)) {
                InsnParse::Decoded(
                    Instruction::JmpTopNegative(number_value(t.skip(2))),
                    2 + number_len(t.skip(2)),
                )
            } else {
                InsnParse::ShortInput
            },
            (Token::Tab, Token::LineFeed) => InsnParse::Decoded(Instruction::Ret, 2),
            (Token::LineFeed, Token::LineFeed) => InsnParse::Decoded(Instruction::End, 2),
            _ => InsnParse::BadSequence,
        }
    }
}

/// Decodes an I/O instruction from the tokens after the tab-line-feed
/// category prefix.
pub open spec fn io_insn(t: Seq<Token>) -> InsnParse {
    if t.len() < 2 {
        InsnParse::ShortInput
    } else {
        match (t[0], t[1]) {
            (Token::Space, Token::Space) => InsnParse::Decoded(Instruction::OutputChar, 2),
            (Token::Space, Token::Tab) => InsnParse::Decoded(Instruction::OutputNum, 2),
            (Token::Tab, Token::Space) => InsnParse::Decoded(Instruction::ReadChar, 2),
            (Token::Tab, Token::Tab) => InsnParse::Decoded(Instruction::ReadNum, 2),
            _ => InsnParse::BadSequence,
        }
    }
}

/// Decodes the instruction standing at the head of a non-empty token
/// stream, dispatching on its category prefix.
pub open spec fn insn_at(t: Seq<Token>) -> InsnParse
    recommends
        t.len() > 0,
{
    match t[0] {
        Token::Space => with_offset(stack_insn(t.drop_first()), 1),
        Token::Tab => if t.len() < 2 {
            InsnParse::ShortInput
        } else {
            match t[1] {
                Token::Space => with_offset(arith_insn(t.skip(2)), 2),
                Token::Tab => with_offset(heap_insn(t.skip(2)), 2),
                Token::LineFeed => with_offset(io_insn(t.skip(2)), 2),
            }
        },
        Token::LineFeed => with_offset(flow_insn(t.drop_first()), 1),
    }
}

/// A decoded instruction consumes at least one and at most all of the
/// tokens.
proof fn lemma_insn_at_consumed(t: Seq<Token>)
    requires
        t.len() > 0,
    ensures
        insn_at(t) matches InsnParse::Decoded(i, k) ==> 1 <= k <= t.len(),
{
    assert forall|s: Seq<Token>| number_ok(s) implies 2 <= number_len(s) <= s.len() by {
        lemma_lf_pos_bounds(s.drop_first());
    }
}

/// The outcome of decoding a whole token stream.
pub enum ParseOutcome {
    /// The decoded instruction sequence.
    Parsed(Seq<Instruction>),
    /// The tokens ran out inside an instruction or literal.
    ShortInput,
    /// A complete token sequence that matches no instruction.
    BadSequence,
}

/// Decodes a whole token stream: instructions are decoded one after the
/// other until the tokens are exhausted, and the first failure aborts the
/// parse.
pub open spec fn parse_toks(t: Seq<Token>) -> ParseOutcome
    decreases t.len(),
    via parse_toks_decreases
{
    if t.len() == 0 {
        ParseOutcome::Parsed(Seq::empty())
    } else {
        match insn_at(t) {
            InsnParse::Decoded(i, k) => match parse_toks(t.skip(k)) {
                ParseOutcome::Parsed(rest) => ParseOutcome::Parsed(seq![i] + rest),
                e => e,
            },
            InsnParse::ShortInput => ParseOutcome::ShortInput,
            InsnParse::BadSequence => ParseOutcome::BadSequence,
        }
    }
}

#[via_fn]
proof fn parse_toks_decreases(t: Seq<Token>) {
    if t.len() > 0 {
        lemma_insn_at_consumed(t);
    }
}

/// Prefixes already-decoded instructions onto a decode outcome.
pub open spec fn prepend_outcome(pre: Seq<Instruction>, o: ParseOutcome) -> ParseOutcome {
    match o {
        ParseOutcome::Parsed(s) => ParseOutcome::Parsed(pre + s),
        e => e,
    }
}

/// Reads a label literal; labels use the identical sign-and-bits encoding.
fn parse_label(src: &[u8], pos: &mut usize) -> (r: Result<Label, ParseError>)
    requires
        *old(pos) <= src@.len(),
    ensures
        *old(pos) <= *final(pos) <= src@.len(),
        ({
            let t = lex(src@.skip(*old(pos) as int));
            match r {
                Ok(v) => number_ok(t) && v == number_value(t) && lex(
                    src@.skip(*final(pos) as int),
                ) == t.skip(number_len(t)),
                Err(e) => !number_ok(t) && e.kind == ParseErrorKind::UnexpectedEof,
            }
        }),
{
    parse_number(src, pos)
}

/// Decodes a stack instruction, the space category.
fn parse_stack(src: &[u8], pos: &mut usize) -> (r: Result<Instruction, ParseError>)
    requires
        *old(pos) <= src@.len(),
    ensures
        *old(pos) <= *final(pos) <= src@.len(),
        ({
            let t = lex(src@.skip(*old(pos) as int));
            match r {
                Ok(insn) => stack_insn(t) matches InsnParse::Decoded(i, k) && i == insn && lex(
                    src@.skip(*final(pos) as int),
                ) == t.skip(k),
                Err(e) => (e.kind == ParseErrorKind::UnexpectedEof && stack_insn(t)
                    is ShortInput) || (e.kind == ParseErrorKind::UnknownInstruction && stack_insn(
                    t,
                ) is BadSequence),
            }
        }),
{
    let ghost t = lex(src@.skip(*old(pos) as int));
    let mut i: usize = *pos;
    let fst = match expect_a_token(src, &mut i) {
        Ok(tok) => tok,
        Err(e) => {
            *pos = i;
            return Err(e);
        },
    };
    let ghost t1 = lex(src@.skip(i as int));
    proof {
        assert(t.drop_first() =~= t1);
    }
    match fst {
        Token::Space => {
            match parse_number(src, &mut i) {
                Ok(v) => {
                    proof {
                        lemma_lf_pos_bounds(t1.drop_first());
                        assert(t.skip(1 + number_len(t1)) =~= t1.skip(number_len(t1)));
                    }
                    *pos = i;
                    Ok(Instruction::PushNrOnStack(v))
                },
                Err(e) => {
                    *pos = i;
                    Err(e)
                },
            }
        },
        _ => {
            let snd = match expect_a_token(src, &mut i) {
                Ok(tok) => tok,
                Err(e) => {
                    *pos = i;
                    return Err(e);
                },
            };
            let ghost t2 = lex(src@.skip(i as int));
            proof {
                assert(t1.drop_first() =~= t2);
                assert(t[1] == t1[0]);
                assert(t.skip(2) =~= t2);
            }
            match (fst, snd) {
                (Token::Space, _) => unreached(),
                (Token::LineFeed, Token::Space) => {
                    *pos = i;
                    Ok(Instruction::DuplicateTopStack)
                },
                (Token::LineFeed, Token::Tab) => {
                    *pos = i;
                    Ok(Instruction::SwapTopTwoOnStack)
                },
                (Token::LineFeed, Token::LineFeed) => {
                    *pos = i;
                    Ok(Instruction::DiscardTopOfStack)
                },
                (Token::Tab, Token::Space) => {
                    match parse_number(src, &mut i) {
                        Ok(v) => {
                            proof {
                                lemma_lf_pos_bounds(t2.drop_first());
                                assert(t.skip(2 + number_len(t2)) =~= t2.skip(number_len(t2)));
                            }
                            *pos = i;
                            Ok(Instruction::CopyNthOnTop(v))
                        },
                        Err(e) => {
                            *pos = i;
                            Err(e)
                        },
                    }
                },
                (Token::Tab, Token::LineFeed) => {
                    match parse_number(src, &mut i) {
                        Ok(v) => {
                            proof {
                                lemma_lf_pos_bounds(t2.drop_first());
                                assert(t.skip(2 + number_len(t2)) =~= t2.skip(number_len(t2)));
                            }
                            *pos = i;
                            Ok(Instruction::SlideNOfTopOfStackKeepTopItem(v))
                        },
                        Err(e) => {
                            *pos = i;
                            Err(e)
                        },
                    }
                },
                (Token::Tab, Token::Tab) => {
                    *pos = i;
                    ParseError::err(
                        ParseErrorKind::UnknownInstruction,
                        "STT instruction does not exist",
                    )
                },
            }
        },
    }
}

/// Decodes an arithmetic instruction, the tab-space category.
fn parse_arithmetic(src: &[u8], pos: &mut usize) -> (r: Result<Instruction, ParseError>)
    requires
        *old(pos) <= src@.len(),
    ensures
        *old(pos) <= *final(pos) <= src@.len(),
        ({
            let t = lex(src@.skip(*old(pos) as int));
            match r {
                Ok(insn) => arith_insn(t) matches InsnParse::Decoded(i, k) && i == insn && lex(
                    src@.skip(*final(pos) as int),
                ) == t.skip(k),
                Err(e) => (e.kind == ParseErrorKind::UnexpectedEof && arith_insn(t)
                    is ShortInput) || (e.kind == ParseErrorKind::UnknownInstruction && arith_insn(
                    t,
                ) is BadSequence),
            }
        }),
{
    let ghost t = lex(src@.skip(*old(pos) as int));
    let mut i: usize = *pos;
    let fst = match expect_a_token(src, &mut i) {
        Ok(tok) => tok,
        Err(e) => {
            *pos = i;
            return Err(e);
        },
    };
    let ghost t1 = lex(src@.skip(i as int));
    let snd = match expect_a_token(src, &mut i) {
        Ok(tok) => tok,
        Err(e) => {
            *pos = i;
            return Err(e);
        },
    };
    proof {
        assert(t.drop_first() =~= t1);
        assert(t[1] == t1[0]);
        assert(t.skip(2) =~= t1.drop_first());
        assert(t.skip(2) =~= lex(src@.skip(i as int)));
    }
    *pos = i;
    match (fst, snd) {
        (Token::Space, Token::Space) => Ok(Instruction::Addition),
        (Token::Space, Token::Tab) => Ok(Instruction::Substraction),
        (Token::Space, Token::LineFeed) => Ok(Instruction::Multiplication),
        (Token::Tab, Token::Space) => Ok(Instruction::IntegerDivision),
        (Token::Tab, Token::Tab) => Ok(Instruction::Modulo),
        _ => ParseError::err(ParseErrorKind::UnknownInstruction, "No such arithmetic instruction"),
    }
}

/// Decodes a heap instruction, the tab-tab category.
fn parse_heap(src: &[u8], pos: &mut usize) -> (r: Result<Instruction, ParseError>)
    requires
        *old(pos) <= src@.len(),
    ensures
        *old(pos) <= *final(pos) <= src@.len(),
        ({
            let t = lex(src@.skip(*old(pos) as int));
            match r {
                Ok(insn) => heap_insn(t) matches InsnParse::Decoded(i, k) && i == insn && lex(
                    src@.skip(*final(pos) as int),
                ) == t.skip(k),
                Err(e) => (e.kind == ParseErrorKind::UnexpectedEof && heap_insn(t)
                    is ShortInput) || (e.kind == ParseErrorKind::UnknownInstruction && heap_insn(
                    t,
                ) is BadSequence),
            }
        }),
{
    let ghost t = lex(src@.skip(*old(pos) as int));
    let mut i: usize = *pos;
    let fst = match expect_a_token(src, &mut i) {
        Ok(tok) => tok,
        Err(e) => {
            *pos = i;
            return Err(e);
        },
    };
    proof {
        assert(t.drop_first() =~= lex(src@.skip(i as int)));
        assert(t.skip(1) =~= t.drop_first());
    }
    *pos = i;
    match fst {
        Token::Space => Ok(Instruction::StoreInHeap),
        Token::Tab => Ok(Instruction::RetreiveFomHeap),
        Token::LineFeed => ParseError::err(
            ParseErrorKind::UnknownInstruction,
            "No such heap instruction",
        ),
    }
}

/// Decodes a flow-control instruction, the line-feed category.
fn parse_flowcontrol(src: &[u8], pos: &mut usize) -> (r: Result<Instruction, ParseError>)
    requires
        *old(pos) <= src@.len(),
    ensures
        *old(pos) <= *final(pos) <= src@.len(),
        ({
            let t = lex(src@.skip(*old(pos) as int));
            match r {
                Ok(insn) => flow_insn(t) matches InsnParse::Decoded(i, k) && i == insn && lex(
                    src@.skip(*final(pos) as int),
                ) == t.skip(k),
                Err(e) => (e.kind == ParseErrorKind::UnexpectedEof && flow_insn(t)
                    is ShortInput) || (e.kind == ParseErrorKind::UnknownInstruction && flow_insn(
                    t,
                ) is BadSequence),
            }
        }),
{
    let ghost t = lex(src@.skip(*old(pos) as int));
    let mut i: usize = *pos;
    let fst = match expect_a_token(src, &mut i) {
        Ok(tok) => tok,
        Err(e) => {
            *pos = i;
            return Err(e);
        },
    };
    let ghost t1 = lex(src@.skip(i as int));
    let snd = match expect_a_token(src, &mut i) {
        Ok(tok) => tok,
        Err(e) => {
            *pos = i;
            return Err(e);
        },
    };
    let ghost t2 = lex(src@.skip(i as int));
    proof {
        assert(t.drop_first() =~= t1);
        assert(t[1] == t1[0]);
        assert(t1.drop_first() =~= t2);
        assert(t.skip(2) =~= t2);
    }
    match (fst, snd) {
        (Token::Space, Token::Space) => {
            match parse_label(src, &mut i) {
                Ok(l) => {
                    proof {
                        lemma_lf_pos_bounds(t2.drop_first());
                        assert(t.skip(2 + number_len(t2)) =~= t2.skip(number_len(t2)));
                    }
                    *pos = i;
                    Ok(Instruction::MarkLocation(l))
                },
                Err(e) => {
                    *pos = i;
                    Err(e)
                },
            }
        },
        (Token::Space, Token::Tab) => {
            match parse_label(src, &mut i) {
                Ok(l) => {
                    proof {
                        lemma_lf_pos_bounds(t2.drop_first());
                        assert(t.skip(2 + number_len(t2)) =~= t2.skip(number_len(t2)));
                    }
                    *pos = i;
                    Ok(Instruction::CallSubroutine(l))
                },
                Err(e) => {
                    *pos = i;
                    Err(e)
                },
            }
        },
        (Token::Space, Token::LineFeed) => {
            match parse_label(src, &mut i) {
                Ok(l) => {
                    proof {
                        lemma_lf_pos_bounds(t2.drop_first());
                        assert(t.skip(2 + number_len(t2)) =~= t2.skip(number_len(t2)));
                    }
                    *pos = i;
                    Ok(Instruction::Jmp(l))
                },
                Err(e) => {
                    *pos = i;
                    Err(e)
                },
            }
        },
        (Token::Tab, Token::Space) => {
            match parse_label(src, &mut i) {
                Ok(l) => {
                    proof {
                        lemma_lf_pos_bounds(t2.drop_first());
                        assert(t.skip(2 + number_len(t2)) =~= t2.skip(number_len(t2)));
                    }
                    *pos = i;
                    Ok(Instruction::JmpTopZero(l))
                },
                Err(e) => {
                    *pos = i;
                    Err(e)
                },
            }
        },
        (Token::Tab, Token::Tab) => {
            match parse_label(src, &mut i) {
                Ok(l) => {
                    proof {
                        lemma_lf_pos_bounds(t2.drop_first());
                        assert(t.skip(2 + number_len(t2)) =~= t2.skip(number_len(t2)));
                    }
                    *pos = i;
                    Ok(Instruction::JmpTopNegative(l))
                },
                Err(e) => {
                    *pos = i;
                    Err(e)
                },
            }
        },
        (Token::Tab, Token::LineFeed) => {
            *pos = i;
            Ok(Instruction::Ret)
        },
        (Token::LineFeed, Token::LineFeed) => {
            *pos = i;
            Ok(Instruction::End)
        },
        _ => {
            *pos = i;
            ParseError::err(ParseErrorKind::UnknownInstruction, "No such flowcontrol instruction")
        },
    }
}

/// Decodes an I/O instruction, the tab-line-feed category.
fn parse_io(src: &[u8], pos: &mut usize) -> (r: Result<Instruction, ParseError>)
    requires
        *old(pos) <= src@.len(),
    ensures
        *old(pos) <= *final(pos) <= src@.len(),
        ({
            let t = lex(src@.skip(*old(pos) as int));
            match r {
                Ok(insn) => io_insn(t) matches InsnParse::Decoded(i, k) && i == insn && lex(
                    src@.skip(*final(pos) as int),
                ) == t.skip(k),
                Err(e) => (e.kind == ParseErrorKind::UnexpectedEof && io_insn(t) is ShortInput)
                    || (e.kind == ParseErrorKind::UnknownInstruction && io_insn(t)
                    is BadSequence),
            }
        }),
{
    let ghost t = lex(src@.skip(*old(pos) as int));
    let mut i: usize = *pos;
    let fst = match expect_a_token(src, &mut i) {
        Ok(tok) => tok,
        Err(e) => {
            *pos = i;
            return Err(e);
        },
    };
    let ghost t1 = lex(src@.skip(i as int));
    let snd = match expect_a_token(src, &mut i) {
        Ok(tok) => tok,
        Err(e) => {
            *pos = i;
            return Err(e);
        },
    };
    proof {
        assert(t.drop_first() =~= t1);
        assert(t[1] == t1[0]);
        assert(t.skip(2) =~= t1.drop_first());
        assert(t.skip(2) =~= lex(src@.skip(i as int)));
    }
    *pos = i;
    match (fst, snd) {
        (Token::Space, Token::Space) => Ok(Instruction::OutputChar),
        (Token::Space, Token::Tab) => Ok(Instruction::OutputNum),
        (Token::Tab, Token::Space) => Ok(Instruction::ReadChar),
        (Token::Tab, Token::Tab) => Ok(Instruction::ReadNum),
        _ => ParseError::err(ParseErrorKind::UnknownInstruction, "No such io instruction"),
    }
}

/// Parses program text into its instruction sequence.
///
/// The text is lexed as it is read: bytes other than space, tab and line
/// feed are comments and never influence the result. The whole token stream
/// must decode; the first incomplete or unknown token sequence aborts the
/// parse with the matching error kind.
pub fn parse(source: &[u8]) -> (r: Result<Vec<Instruction>, ParseError>)
    ensures
        ({
            let out = parse_toks(lex(source@));
            match r {
                Ok(p) => out == ParseOutcome::Parsed(p@),
                Err(e) => (e.kind == ParseErrorKind::UnexpectedEof && out is ShortInput) || (
                e.kind == ParseErrorKind::UnknownInstruction && out is BadSequence),
            }
        }),
{
    let mut program: Vec<Instruction> = Vec::new();
    let mut i: usize = 0;
    proof {
        assert(source@.skip(0) =~= source@);
        match parse_toks(lex(source@)) {
            ParseOutcome::Parsed(s) => {
                assert(Seq::<Instruction>::empty() + s =~= s);
            },
            _ => {},
        }
    }
    loop
        invariant
            i <= source@.len(),
            parse_toks(lex(source@)) == prepend_outcome(
                program@,
                parse_toks(lex(source@.skip(i as int))),
            ),
        decreases source@.len() - i,
    {
        let ghost tcur = lex(source@.skip(i as int));
        proof {
            if tcur.len() > 0 {
                lemma_insn_at_consumed(tcur);
            }
        }
        let tok = match next_token(source, &mut i) {
            None => {
                proof {
                    assert(program@ + Seq::<Instruction>::empty() =~= program@);
                }
                return Ok(program);
            },
            Some(tok) => tok,
        };
        let ghost t1 = lex(source@.skip(i as int));
        proof {
            assert(tcur.drop_first() =~= t1);
        }
        let instruction = match tok {
            Token::Space => {
                match parse_stack(source, &mut i) {
                    Ok(insn) => {
                        proof {
                            let k = stack_insn(t1)->Decoded_1;
                            assert(tcur.skip(1 + k) =~= t1.skip(k));
                        }
                        insn
                    },
                    Err(e) => {
                        return Err(e);
                    },
                }
            },
            Token::Tab => {
                let snd = match expect_a_token(source, &mut i) {
                    Ok(s) => s,
                    Err(e) => {
                        proof {
                            assert(tcur.len() == 1);
                        }
                        return Err(e);
                    },
                };
                let ghost t2 = lex(source@.skip(i as int));
                proof {
                    assert(tcur[1] == t1[0]);
                    assert(t1.drop_first() =~= t2);
                    assert(tcur.skip(2) =~= t2);
                }
                match snd {
                    Token::Space => {
                        match parse_arithmetic(source, &mut i) {
                            Ok(insn) => {
                                proof {
                                    let k = arith_insn(t2)->Decoded_1;
                                    assert(tcur.skip(2 + k) =~= t2.skip(k));
                                }
                                insn
                            },
                            Err(e) => {
                                return Err(e);
                            },
                        }
                    },
                    Token::Tab => {
                        match parse_heap(source, &mut i) {
                            Ok(insn) => {
                                proof {
                                    let k = heap_insn(t2)->Decoded_1;
                                    assert(tcur.skip(2 + k) =~= t2.skip(k));
                                }
                                insn
                            },
                            Err(e) => {
                                return Err(e);
                            },
                        }
                    },
                    Token::LineFeed => {
                        match parse_io(source, &mut i) {
                            Ok(insn) => {
                                proof {
                                    let k = io_insn(t2)->Decoded_1;
                                    assert(tcur.skip(2 + k) =~= t2.skip(k));
                                }
                                insn
                            },
                            Err(e) => {
                                return Err(e);
                            },
                        }
                    },
                }
            },
            Token::LineFeed => {
                match parse_flowcontrol(source, &mut i) {
                    Ok(insn) => {
                        proof {
                            let k = flow_insn(t1)->Decoded_1;
                            assert(tcur.skip(1 + k) =~= t1.skip(k));
                        }
                        insn
                    },
                    Err(e) => {
                        return Err(e);
                    },
                }
            },
        };
        let ghost pre = program@;
        program.push(instruction);
        proof {
            let rest = lex(source@.skip(i as int));
            let k = insn_at(tcur)->Decoded_1;
            assert(insn_at(tcur) == InsnParse::Decoded(instruction, k));
            assert(rest == tcur.skip(k));
            assert(program@ =~= pre + seq![instruction]);
            match parse_toks(rest) {
                ParseOutcome::Parsed(suffix) => {
                    assert((pre + seq![instruction]) + suffix =~= pre + (seq![instruction]
                        + suffix));
                },
                _ => {},
            }
        }
    }
}

} // verus!
