//! The signature compiler: parses a textual signature into a `Pattern`,
//! an ordered sequence of typed parts.
//!
//! A signature is a string of tokens separated by single spaces. Each token,
//! case-insensitively, is `??` (match any byte, discard it), `**` (match any
//! byte, capture it), or exactly two hexadecimal digits (match that byte).
//! Anything else fails compilation at the first offending token.

use vstd::prelude::*;
use vstd::slice::slice_to_vec;
use vstd::string::StringSliceAdditionalSpecFns;

verus! {

/// The ASCII bytes that the signature syntax gives meaning to.
pub const SPACE: u8 = 0x20;

pub const QMARK: u8 = 0x3F;

pub const STAR: u8 = 0x2A;

/// One position of a compiled signature.
#[derive(Debug, Clone, Copy, PartialEq, Eq, Structural)]
pub enum Part {
    /// The next source byte must equal this value.
    Byte(u8),
    /// The next source byte is consumed and captured.
    Take,
    /// The next source byte is consumed and discarded.
    Skip,
}

/// Why a signature failed to compile: the first token that is neither `??`,
/// `**` nor two hexadecimal digits, as its bytes.
#[derive(Debug, Clone, PartialEq, Eq)]
pub enum PatternCompileError {
    InvalidToken(Vec<u8>),
}

/// A compiled signature: the parts in token order. Successful compilation
/// always yields at least one part.
#[derive(Debug, Clone, PartialEq)]
pub struct Pattern(Vec<Part>);

impl View for Pattern {
    type V = Seq<Part>;

    closed spec fn view(&self) -> Seq<Part> {
        self.0@
    }
}

/// The value of one hexadecimal digit, either case; `None` for any other byte.
pub open spec fn hex_val(b: u8) -> Option<u8> {
    if 0x30 <= b && b <= 0x39 {
        Some((b - 0x30) as u8)
    } else if 0x41 <= b && b <= 0x46 {
        Some((b - 0x41 + 10) as u8)
    } else if 0x61 <= b && b <= 0x66 {
        Some((b - 0x61 + 10) as u8)
    } else {
        None
    }
}

/// The part that one token denotes, or `None` for an invalid token.
pub open spec fn token_part(t: Seq<u8>) -> Option<Part> {
    if t.len() == 2 && t[0] == QMARK && t[1] == QMARK {
        Some(Part::Skip)
    } else if t.len() == 2 && t[0] == STAR && t[1] == STAR {
        Some(Part::Take)
    } else if t.len() == 2 && hex_val(t[0]) is Some && hex_val(t[1]) is Some {
        Some(Part::Byte((hex_val(t[0]).unwrap() * 16 + hex_val(t[1]).unwrap()) as u8))
    } else {
        None
    }
}

/// The longest space-free prefix: the first token of the text.
pub open spec fn first_token(b: Seq<u8>) -> Seq<u8>
    decreases b.len(),
{
    if b.len() == 0 || b[0] == SPACE {
        Seq::empty()
    } else {
        seq![b[0]] + first_token(b.drop_first())
    }
}

pub proof fn lemma_first_token_len(b: Seq<u8>)
    ensures
        first_token(b).len() <= b.len(),
    decreases b.len(),
{
    if b.len() == 0 || b[0] == SPACE {
    } else {
        lemma_first_token_len(b.drop_first());
    }
}

/// What compiling a byte text yields: the parts of its space-separated
/// tokens in order, or the first invalid token. The empty text has one
/// empty token and is therefore rejected.
pub open spec fn compile_parts(b: Seq<u8>) -> Result<Seq<Part>, Seq<u8>>
    decreases b.len(),
    via compile_parts_decreases
{
    let t = first_token(b);
    match token_part(t) {
        None => Err(t),
        Some(p) => {
            if t.len() == b.len() {
                Ok(seq![p])
            } else {
                match compile_parts(b.skip(t.len() as int + 1)) {
                    Ok(ps) => Ok(seq![p] + ps),
                    Err(e) => Err(e),
                }
            }
        },
    }
}

#[via_fn]
proof fn compile_parts_decreases(b: Seq<u8>) {
    lemma_first_token_len(b);
}

impl Pattern {
    /// Compiles a signature string. Returns the pattern exactly when every
    /// token is valid, and otherwise the first invalid token; a compiled
    /// pattern is never empty.
    pub fn new(pattern: &str) -> (r: Result<Pattern, PatternCompileError>)
        ensures
            match r {
                Ok(p) => compile_parts(pattern.spec_bytes()) == Ok::<Seq<Part>, Seq<u8>>(p@)
                    && p@.len() > 0,
                Err(e) => match e {
                    PatternCompileError::InvalidToken(t) => compile_parts(pattern.spec_bytes())
                        == Err::<Seq<Part>, Seq<u8>>(t@),
                },
            },
    {
        let bv: Vec<u8> = slice_to_vec(pattern.as_bytes());
        let ghost b: Seq<u8> = pattern.spec_bytes();
        let n: usize = bv.len();
        let mut parts: Vec<Part> = Vec::new();
        let mut i: usize = 0;
        proof {
            assert(b.skip(0) =~= b);
            match compile_parts(b) {
                Ok(ps) => {
                    assert(Seq::<Part>::empty() + ps =~= ps);
                },
                Err(_) => {},
            }
        }
        loop
            invariant
                b == pattern.spec_bytes(),
                bv@ == b,
                n == b.len(),
                i <= n,
                compile_parts(b) == compile_cont(parts@, b.skip(i as int)),
            decreases n - i,
        {
            let mut j: usize = i;
            while j < n && bv[j] != SPACE
                invariant
                    bv@ == b,
                    n == b.len(),
                    i <= j <= n,
                    forall|k: int| i <= k < j ==> b[k] != SPACE,
                decreases n - j,
            {
                j = j + 1;
            }
            let ghost t: Seq<u8> = b.subrange(i as int, j as int);
            proof {
                lemma_first_token_segment(b, i as int, j as int);
                assert(first_token(b.skip(i as int)) == t);
                assert(t.len() == j - i);
            }
            let token_ok: Option<Part> = if j - i == 2 {
                let c0: u8 = bv[i];
                let c1: u8 = bv[i + 1];
                proof {
                    assert(t[0] == c0);
                    assert(t[1] == c1);
                }
                if c0 == QMARK && c1 == QMARK {
                    Some(Part::Skip)
                } else if c0 == STAR && c1 == STAR {
                    Some(Part::Take)
                } else {
                    match (hex_digit(c0), hex_digit(c1)) {
                        (Some(h), Some(l)) => Some(Part::Byte(h * 16 + l)),
                        _ => None,
                    }
                }
            } else {
                None
            };
            proof {
                assert(token_part(t) == token_ok);
            }
            match token_ok {
                None => {
                    let mut tok: Vec<u8> = Vec::new();
                    let mut k: usize = i;
                    while k < j
                        invariant
                            bv@ == b,
                            n == b.len(),
                            i <= k <= j <= n,
                            tok@ == b.subrange(i as int, k as int),
                        decreases j - k,
                    {
                        let c: u8 = bv[k];
                        tok.push(c);
                        k = k + 1;
                        proof {
                            assert(tok@ =~= b.subrange(i as int, k as int));
                        }
                    }
                    proof {
                        assert(compile_parts(b.skip(i as int)) == Err::<Seq<Part>, Seq<u8>>(t));
                        assert(tok@ == t);
                    }
                    return Err(PatternCompileError::InvalidToken(tok));
                },
                Some(p) => {
                    let ghost parts0: Seq<Part> = parts@;
                    parts.push(p);
                    proof {
                        assert(parts@ =~= parts0 + seq![p]);
                    }
                    if j == n {
                        proof {
                            assert(t.len() == b.skip(i as int).len());
                            assert(compile_parts(b.skip(i as int))
                                == Ok::<Seq<Part>, Seq<u8>>(seq![p]));
                            assert(parts0 + seq![p] =~= parts@);
                            assert(compile_parts(b) == Ok::<Seq<Part>, Seq<u8>>(parts@));
                        }
                        return Ok(Pattern(parts));
                    }
                    proof {
                        let rest = b.skip(j + 1);
                        assert(b.skip(i as int).skip(t.len() as int + 1) =~= rest);
                        assert(t.len() < b.skip(i as int).len());
                        match compile_parts(rest) {
                            Ok(ps) => {
                                assert(parts0 + (seq![p] + ps) =~= (parts0 + seq![p]) + ps);
                            },
                            Err(_) => {},
                        }
                        assert(compile_parts(b) == compile_cont(parts@, rest));
                    }
                    i = j + 1;
                },
            }
        }
    }

    /// The compiled parts, in token order.
    pub fn parts(&self) -> (r: &Vec<Part>)
        ensures
            r@ == self@,
    {
        &self.0
    }
}

/// Compiling the same signature text twice yields structurally equal
/// patterns: by [`Pattern::new`]'s contract a compiled pattern's parts are
/// a function of the text's bytes alone.
pub proof fn lemma_compile_deterministic(first: Pattern, second: Pattern, b: Seq<u8>)
    requires
        compile_parts(b) == Ok::<Seq<Part>, Seq<u8>>(first@),
        compile_parts(b) == Ok::<Seq<Part>, Seq<u8>>(second@),
    ensures
        first@ == second@,
{
}

/// What compiling the unprocessed suffix adds after the parts already built.
spec fn compile_cont(acc: Seq<Part>, rest: Seq<u8>) -> Result<Seq<Part>, Seq<u8>> {
    match compile_parts(rest) {
        Ok(ps) => Ok(acc + ps),
        Err(t) => Err(t),
    }
}

/// The first token of the text from position `i` is exactly the segment up
/// to the next space (or the end).
proof fn lemma_first_token_segment(b: Seq<u8>, i: int, j: int)
    requires
        0 <= i <= j <= b.len(),
        forall|k: int| i <= k < j ==> b[k] != SPACE,
        j == b.len() || b[j] == SPACE,
    ensures
        first_token(b.skip(i)) =~= b.subrange(i, j),
    decreases j - i,
{
    if i == j {
        assert(first_token(b.skip(i)) =~= Seq::<u8>::empty());
    } else {
        assert(b.skip(i)[0] == b[i]);
        assert(b.skip(i).drop_first() =~= b.skip(i + 1));
        lemma_first_token_segment(b, i + 1, j);
    }
}

/// The value of one hexadecimal digit, either case.
fn hex_digit(b: u8) -> (r: Option<u8>)
    ensures
        r == hex_val(b),
{
    if 0x30 <= b && b <= 0x39 {
        Some(b - 0x30)
    } else if 0x41 <= b && b <= 0x46 {
        Some(b - 0x41 + 10)
    } else if 0x61 <= b && b <= 0x66 {
        Some(b - 0x61 + 10)
    } else {
        None
    }
}

} // verus!
