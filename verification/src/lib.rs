//! Byte-signature scanning: locate a pattern of fixed bytes and wildcards
//! inside a byte source.
//!
//! A signature is compiled once ([`pattern::Pattern`]) and then applied
//! either to a forward-only byte source ([`Scanner`]), which yields attempt
//! indices, or to an addressable memory region ([`mem::ProcessScanner`]),
//! which tries every candidate start address in turn and yields absolute
//! addresses.

pub mod mem;
pub mod pattern;

use crate::pattern::{Part, Pattern};
use vstd::prelude::*;

verus! {

/// Whether one part accepts one source byte: a `Byte` part demands its own
/// value, the wildcards accept anything.
pub open spec fn part_matches(p: Part, b: u8) -> bool {
    match p {
        Part::Byte(v) => b == v,
        Part::Take => true,
        Part::Skip => true,
    }
}

/// How one attempt to match a whole pattern against the front of a source
/// ends. A failed attempt has consumed `used` bytes, the mismatching byte
/// included; a starved attempt ran the source dry before the pattern was
/// done and has consumed everything.
pub enum AttemptOutcome {
    Matched { caps: Seq<u8> },
    Failed { used: nat },
    Starved,
}

/// One attempt: each part consumes exactly one byte, in order. `Byte`
/// mismatch stops the attempt; `Take` captures the byte; `Skip` drops it.
pub open spec fn attempt(ps: Seq<Part>, s: Seq<u8>) -> AttemptOutcome
    decreases ps.len(),
{
    if ps.len() == 0 {
        AttemptOutcome::Matched { caps: Seq::empty() }
    } else if s.len() == 0 {
        AttemptOutcome::Starved
    } else if !part_matches(ps[0], s[0]) {
        AttemptOutcome::Failed { used: 1 }
    } else {
        match attempt(ps.drop_first(), s.drop_first()) {
            AttemptOutcome::Matched { caps } => AttemptOutcome::Matched {
                caps: if ps[0] is Take {
                    seq![s[0]] + caps
                } else {
                    caps
                },
            },
            AttemptOutcome::Failed { used } => AttemptOutcome::Failed { used: used + 1 },
            AttemptOutcome::Starved => AttemptOutcome::Starved,
        }
    }
}

pub proof fn lemma_attempt_bounds(ps: Seq<Part>, s: Seq<u8>)
    ensures
        attempt(ps, s) matches AttemptOutcome::Failed { used } ==> 1 <= used && used <= ps.len()
            && used <= s.len(),
        attempt(ps, s) is Matched ==> ps.len() <= s.len(),
        attempt(ps, s) is Starved ==> s.len() < ps.len(),
    decreases ps.len(),
{
    if ps.len() == 0 || s.len() == 0 || !part_matches(ps[0], s[0]) {
    } else {
        lemma_attempt_bounds(ps.drop_first(), s.drop_first());
    }
}

/// How producing one more match from a forward source ends: a match found
/// after `fails` abandoned attempts, with its captured bytes and the source
/// bytes left after it; or the source drained mid-attempt after `fails`
/// abandoned attempts.
pub enum ScanOutcome {
    Found { fails: nat, caps: Seq<u8>, rest: Seq<u8> },
    Drained { fails: nat },
}

/// What one "produce the next match" step yields on a forward source:
/// attempts run back to back, and a failed attempt is not replayed — the
/// next attempt starts where the source now stands.
pub open spec fn scan_next(ps: Seq<Part>, s: Seq<u8>) -> ScanOutcome
    decreases s.len(),
    via scan_next_decreases
{
    match attempt(ps, s) {
        AttemptOutcome::Matched { caps } => ScanOutcome::Found {
            fails: 0,
            caps,
            rest: s.skip(ps.len() as int),
        },
        AttemptOutcome::Starved => ScanOutcome::Drained { fails: 0 },
        AttemptOutcome::Failed { used } => match scan_next(ps, s.skip(used as int)) {
            ScanOutcome::Found { fails, caps, rest } => ScanOutcome::Found {
                fails: fails + 1,
                caps,
                rest,
            },
            ScanOutcome::Drained { fails } => ScanOutcome::Drained { fails: fails + 1 },
        },
    }
}

#[via_fn]
proof fn scan_next_decreases(ps: Seq<Part>, s: Seq<u8>) {
    lemma_attempt_bounds(ps, s);
}

/// The same outcome with `k` earlier abandoned attempts counted in.
pub open spec fn after_fails(o: ScanOutcome, k: nat) -> ScanOutcome {
    match o {
        ScanOutcome::Found { fails, caps, rest } => ScanOutcome::Found {
            fails: fails + k,
            caps,
            rest,
        },
        ScanOutcome::Drained { fails } => ScanOutcome::Drained { fails: fails + k },
    }
}

pub proof fn lemma_scan_next_fails(ps: Seq<Part>, s: Seq<u8>)
    ensures
        match scan_next(ps, s) {
            ScanOutcome::Found { fails, caps, rest } => fails <= s.len() && rest.len() <= s.len(),
            ScanOutcome::Drained { fails } => fails <= s.len(),
        },
    decreases s.len(),
{
    lemma_attempt_bounds(ps, s);
    match attempt(ps, s) {
        AttemptOutcome::Failed { used } => {
            lemma_scan_next_fails(ps, s.skip(used as int));
        },
        _ => {},
    }
}

/// A forward-only byte source: it hands out its bytes one at a time and
/// cannot be rewound.
pub trait ByteStream {
    /// The bytes not yet consumed, oldest first.
    spec fn remaining(&self) -> Seq<u8>;

    /// Consumes and returns the next byte; `None` exactly when the source
    /// is exhausted.
    fn next(&mut self) -> (r: Option<u8>)
        ensures
            match r {
                Some(b) => old(self).remaining().len() > 0 && b == old(self).remaining()[0]
                    && final(self).remaining() == old(self).remaining().drop_first(),
                None => old(self).remaining().len() == 0 && final(self).remaining() == old(
                    self,
                ).remaining(),
            },
    ;
}

/// How one attempt run by the scanner ended.
enum AttemptStep {
    Hit(Vec<u8>),
    Miss,
    Starved,
}

/// Prepends the bytes an attempt has already consumed: `caps0` captured
/// bytes and `used0` consumed bytes come before whatever the rest of the
/// attempt does.
spec fn attempt_cont(caps0: Seq<u8>, used0: nat, rest: AttemptOutcome) -> AttemptOutcome {
    match rest {
        AttemptOutcome::Matched { caps } => AttemptOutcome::Matched { caps: caps0 + caps },
        AttemptOutcome::Failed { used } => AttemptOutcome::Failed { used: used0 + used },
        AttemptOutcome::Starved => AttemptOutcome::Starved,
    }
}

/// Scans a forward byte source for a pattern, yielding one match index per
/// call to [`Scanner::next`]. The index counts completed match attempts,
/// which equals the true byte offset only when every failed attempt
/// consumed a single byte.
pub struct Scanner<T: ByteStream> {
    bytes: T,
    pattern: Pattern,
    idx: usize,
    /// The bytes captured by `Take` parts of the most recent match.
    pub store: Vec<u8>,
}

impl<T: ByteStream> Scanner<T> {
    /// The compiled parts of the pattern being scanned for.
    pub closed spec fn parts(&self) -> Seq<Part> {
        self.pattern@
    }

    /// The source bytes not yet consumed.
    pub closed spec fn source(&self) -> Seq<u8> {
        self.bytes.remaining()
    }

    /// How many match attempts have been completed and abandoned or won.
    pub closed spec fn attempts(&self) -> nat {
        self.idx as nat
    }

    /// The bytes captured by the most recent match, as `store` holds them.
    pub closed spec fn captured(&self) -> Seq<u8> {
        self.store@
    }

    /// Builds a scanner over a byte source with a compiled pattern.
    pub fn scan(bytes: T, pattern: Pattern) -> (r: Scanner<T>)
        ensures
            r.parts() == pattern@,
            r.source() == bytes.remaining(),
            r.attempts() == 0,
            r.captured() == Seq::<u8>::empty(),
    {
        Scanner { bytes, pattern, idx: 0, store: Vec::new() }
    }

    /// Runs one attempt from wherever the source stands, consuming one byte
    /// per pattern part until the pattern is done, a `Byte` part mismatches
    /// or the source runs dry.
    fn run_attempt(&mut self) -> (r: AttemptStep)
        ensures
            final(self).pattern == old(self).pattern,
            final(self).idx == old(self).idx,
            final(self).store == old(self).store,
            match attempt(old(self).parts(), old(self).source()) {
                AttemptOutcome::Matched { caps } => {
                    &&& r matches AttemptStep::Hit(c) && c@ == caps
                    &&& final(self).source() == old(self).source().skip(
                        old(self).parts().len() as int,
                    )
                },
                AttemptOutcome::Failed { used } => {
                    &&& r is Miss
                    &&& final(self).source() == old(self).source().skip(used as int)
                },
                AttemptOutcome::Starved => {
                    &&& r is Starved
                    &&& final(self).source().len() == 0
                },
            },
    {
        let ghost ps = self.pattern@;
        let ghost sa = self.bytes.remaining();
        let pat_len: usize = self.pattern.parts().len();
        let mut caps: Vec<u8> = Vec::new();
        let mut pi: usize = 0;
        proof {
            assert(sa.skip(0) =~= sa);
            assert(ps.skip(0) =~= ps);
            match attempt(ps, sa) {
                AttemptOutcome::Matched { caps: c } => {
                    assert(Seq::<u8>::empty() + c =~= c);
                },
                _ => {},
            }
        }
        loop
            invariant
                self.pattern == old(self).pattern,
                self.idx == old(self).idx,
                self.store == old(self).store,
                ps == self.pattern@,
                sa == old(self).source(),
                pat_len == ps.len(),
                pi <= pat_len,
                pi <= sa.len(),
                self.bytes.remaining() == sa.skip(pi as int),
                attempt(ps, sa) == attempt_cont(
                    caps@,
                    pi as nat,
                    attempt(ps.skip(pi as int), self.bytes.remaining()),
                ),
            decreases pat_len - pi,
        {
            if pi == pat_len {
                proof {
                    assert(ps.skip(pi as int).len() == 0);
                    assert(attempt(ps.skip(pi as int), self.bytes.remaining())
                        == (AttemptOutcome::Matched { caps: Seq::<u8>::empty() }));
                    assert(caps@ + Seq::<u8>::empty() =~= caps@);
                }
                return AttemptStep::Hit(caps);
            }
            let ghost cur = self.bytes.remaining();
            let b_opt = self.bytes.next();
            proof {
                assert(ps.skip(pi as int).len() > 0);
                assert(ps.skip(pi as int)[0] == ps[pi as int]);
            }
            match b_opt {
                None => {
                    proof {
                        assert(attempt(ps.skip(pi as int), cur) is Starved);
                    }
                    return AttemptStep::Starved;
                },
                Some(sb) => {
                    proof {
                        assert(sb == cur[0]);
                        assert(cur.len() > 0);
                        assert(pi < sa.len());
                        assert(self.bytes.remaining() == cur.drop_first());
                        assert(cur.drop_first() =~= sa.skip(pi as int + 1));
                        assert(ps.skip(pi as int).drop_first() =~= ps.skip(pi as int + 1));
                    }
                    let p: Part = self.pattern.parts()[pi];
                    proof {
                        assert(p == ps[pi as int]);
                    }
                    match p {
                        Part::Byte(v) => {
                            if sb != v {
                                proof {
                                    assert(!part_matches(ps[pi as int], sb));
                                    assert(attempt(ps.skip(pi as int), cur)
                                        == (AttemptOutcome::Failed { used: 1nat }));
                                }
                                return AttemptStep::Miss;
                            }
                        },
                        Part::Take => {
                            let ghost caps0 = caps@;
                            caps.push(sb);
                            proof {
                                assert(caps@ =~= caps0 + seq![sb]);
                                match attempt(ps.skip(pi as int + 1), self.bytes.remaining()) {
                                    AttemptOutcome::Matched { caps: c } => {
                                        assert(caps0 + (seq![sb] + c) =~= (caps0 + seq![sb]) + c);
                                    },
                                    _ => {},
                                }
                            }
                        },
                        Part::Skip => {
                        },
                    }
                    pi = pi + 1;
                },
            }
        }
    }

    /// Produces the next match. Attempts run back to back: a `Byte`
    /// mismatch abandons the attempt and the next one continues from where
    /// the source now stands, without replaying consumed bytes. On a match
    /// the captured bytes land in `store` and the attempt counter is
    /// returned; `None` means the source ran dry and the scan is over.
    pub fn next(&mut self) -> (r: Option<usize>)
        requires
            old(self).attempts() + old(self).source().len() <= usize::MAX,
        ensures
            final(self).parts() == old(self).parts(),
            match scan_next(old(self).parts(), old(self).source()) {
                ScanOutcome::Found { fails, caps, rest } => {
                    &&& r == Some((old(self).attempts() + fails) as usize)
                    &&& final(self).attempts() == old(self).attempts() + fails
                    &&& final(self).captured() == caps
                    &&& final(self).source() == rest
                },
                ScanOutcome::Drained { fails } => {
                    &&& r is None
                    &&& final(self).attempts() == old(self).attempts() + fails
                    &&& final(self).source().len() == 0
                    &&& final(self).captured() == old(self).captured()
                },
            },
    {
        let ghost ps = self.pattern@;
        let ghost s0 = self.bytes.remaining();
        let ghost idx0 = self.idx as nat;
        loop
            invariant
                self.pattern == old(self).pattern,
                self.store == old(self).store,
                ps == self.pattern@,
                idx0 == old(self).attempts(),
                s0 == old(self).source(),
                idx0 <= self.idx as nat,
                self.idx as nat + self.source().len() <= usize::MAX,
                scan_next(ps, s0) == after_fails(
                    scan_next(ps, self.source()),
                    (self.idx as nat - idx0) as nat,
                ),
            decreases self.source().len(),
        {
            let ghost cur = self.bytes.remaining();
            proof {
                lemma_attempt_bounds(ps, cur);
                lemma_scan_next_fails(ps, cur);
            }
            let step = self.run_attempt();
            match step {
                AttemptStep::Hit(caps) => {
                    self.store = caps;
                    return Some(self.idx);
                },
                AttemptStep::Miss => {
                    self.idx = self.idx + 1;
                },
                AttemptStep::Starved => {
                    return None;
                },
            }
        }
    }
}

/// Two scanners in the same state produce the same outcome: by
/// [`Scanner::next`]'s contract a scan step is a function of the pattern,
/// the unconsumed source and the attempt counter alone, so a fresh scanner
/// over an unchanged buffer repeats the same match sequence.
pub proof fn lemma_scan_deterministic<T: ByteStream>(first: &Scanner<T>, second: &Scanner<T>)
    requires
        first.parts() == second.parts(),
        first.source() == second.source(),
        first.attempts() == second.attempts(),
    ensures
        scan_next(first.parts(), first.source()) == scan_next(second.parts(), second.source()),
{
}

/// A bounds-checked cursor over an owned byte buffer: the replayable,
/// directly addressable kind of source, consumed here front to back.
#[derive(Debug, Clone)]
pub struct ScanPtr {
    bytes: Vec<u8>,
    offset: usize,
}

impl ScanPtr {
    /// Wraps a buffer as a byte source positioned at its start.
    pub fn new(bytes: Vec<u8>) -> (r: ScanPtr)
        ensures
            r.remaining() == bytes@,
    {
        let r = ScanPtr { bytes, offset: 0 };
        proof {
            assert(r.remaining() =~= r.bytes@);
        }
        r
    }
}

impl ByteStream for ScanPtr {
    closed spec fn remaining(&self) -> Seq<u8> {
        if self.offset <= self.bytes@.len() {
            self.bytes@.skip(self.offset as int)
        } else {
            Seq::empty()
        }
    }

    fn next(&mut self) -> (r: Option<u8>) {
        if self.offset < self.bytes.len() {
            let b = self.bytes[self.offset];
            self.offset = self.offset + 1;
            proof {
                assert(self.bytes@.skip(self.offset as int) =~= old(
                    self,
                ).bytes@.skip(old(self).offset as int).drop_first());
            }
            Some(b)
        } else {
            None
        }
    }
}

impl Scanner<ScanPtr> {
    /// Convenience for [`Scanner::scan`] over a buffer wrapped in a
    /// [`ScanPtr`].
    pub fn scan_ptr(bytes: Vec<u8>, pattern: Pattern) -> (r: Scanner<ScanPtr>)
        ensures
            r.parts() == pattern@,
            r.source() == bytes@,
            r.attempts() == 0,
            r.captured() == Seq::<u8>::empty(),
    {
        Scanner::scan(ScanPtr::new(bytes), pattern)
    }
}

} // verus!
