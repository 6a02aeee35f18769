//! Normalized relative paths: the identity key used to match entries
//! between the source and destination trees.
//!
//! A path is kept as its raw bytes. It is *normalized* when it is nonempty,
//! neither starts nor ends with a separator, has no empty segment, and has
//! no `.` or `..` segment; such a path always names one entry strictly below
//! the root it is relative to.

use vstd::prelude::*;

verus! {

/// The path separator byte, `/`.
pub const SLASH: u8 = 47;

/// The `.` byte.
pub const DOT: u8 = 46;

/// Whether position `i` starts a segment of `s`.
pub open spec fn seg_start(s: Seq<u8>, i: int) -> bool {
    i == 0 || s[i - 1] == SLASH
}

/// Whether position `i` ends a segment of `s`.
pub open spec fn seg_end(s: Seq<u8>, i: int) -> bool {
    i == s.len() - 1 || s[i + 1] == SLASH
}

/// Whether the single byte at `i` forms a `.` segment of `s`.
pub open spec fn dot_segment_at(s: Seq<u8>, i: int) -> bool {
    s[i] == DOT && seg_start(s, i) && seg_end(s, i)
}

/// Whether the two bytes at `i`, `i + 1` form a `..` segment of `s`.
pub open spec fn dotdot_segment_at(s: Seq<u8>, i: int) -> bool {
    s[i] == DOT && s[i + 1] == DOT && seg_start(s, i) && seg_end(s, i + 1)
}

/// A normalized relative path: nonempty, no leading or trailing separator,
/// no empty segment, and no `.` or `..` segment.
pub open spec fn is_normalized(s: Seq<u8>) -> bool {
    &&& s.len() > 0
    &&& s[0] != SLASH
    &&& s[s.len() - 1] != SLASH
    &&& forall|i: int| 0 < i < s.len() ==> !(s[i - 1] == SLASH && #[trigger] s[i] == SLASH)
    &&& forall|i: int| 0 <= i < s.len() ==> !dot_segment_at(s, i)
    &&& forall|i: int| 0 <= i < s.len() - 1 ==> !dotdot_segment_at(s, i)
}

/// The number of separator bytes in `s`.
pub open spec fn slash_count(s: Seq<u8>) -> nat
    decreases s.len(),
{
    if s.len() == 0 {
        0
    } else {
        slash_count(s.drop_last()) + (if s.last() == SLASH {
            1nat
        } else {
            0nat
        })
    }
}

/// The depth of a normalized path: how many segments it has.
pub open spec fn depth(s: Seq<u8>) -> nat {
    slash_count(s) + 1
}

/// Whether `q` names a directory that `p` lies strictly inside: `p` is `q`
/// followed by a separator and at least one more byte.
pub open spec fn is_ancestor(q: Seq<u8>, p: Seq<u8>) -> bool {
    &&& q.len() < p.len()
    &&& p.take(q.len() as int) == q
    &&& p[q.len() as int] == SLASH
}

/// Lexicographic order on byte strings: `a` is at most `b`.
pub open spec fn lex_le(a: Seq<u8>, b: Seq<u8>) -> bool
    decreases a.len(),
{
    if a.len() == 0 {
        true
    } else if b.len() == 0 {
        false
    } else if a[0] < b[0] {
        true
    } else if a[0] > b[0] {
        false
    } else {
        lex_le(a.skip(1), b.skip(1))
    }
}

/// The order in which scheduled directories are removed: deeper paths
/// strictly first, ties broken by reverse lexicographic order.
pub open spec fn delete_before(a: Seq<u8>, b: Seq<u8>) -> bool {
    ||| slash_count(a) > slash_count(b)
    ||| (slash_count(a) == slash_count(b) && lex_le(b, a))
}

/// Lexicographic order relates every pair of byte strings.
pub proof fn lemma_lex_le_total(a: Seq<u8>, b: Seq<u8>)
    ensures
        lex_le(a, b) || lex_le(b, a),
    decreases a.len(),
{
    if a.len() > 0 && b.len() > 0 && a[0] == b[0] {
        lemma_lex_le_total(a.skip(1), b.skip(1));
    }
}

/// Lexicographic order is transitive.
pub proof fn lemma_lex_le_trans(a: Seq<u8>, b: Seq<u8>, c: Seq<u8>)
    requires
        lex_le(a, b),
        lex_le(b, c),
    ensures
        lex_le(a, c),
    decreases a.len(),
{
    if a.len() > 0 && b.len() > 0 && c.len() > 0 && a[0] == b[0] && b[0] == c[0] {
        lemma_lex_le_trans(a.skip(1), b.skip(1), c.skip(1));
    }
}

/// The deletion order relates every pair of paths.
pub proof fn lemma_delete_before_total(a: Seq<u8>, b: Seq<u8>)
    ensures
        delete_before(a, b) || delete_before(b, a),
{
    lemma_lex_le_total(a, b);
}

/// The deletion order is transitive.
pub proof fn lemma_delete_before_trans(a: Seq<u8>, b: Seq<u8>, c: Seq<u8>)
    requires
        delete_before(a, b),
        delete_before(b, c),
    ensures
        delete_before(a, c),
{
    if slash_count(a) == slash_count(b) && slash_count(b) == slash_count(c) {
        lemma_lex_le_trans(c, b, a);
    }
}

/// A prefix of a byte string has no more separators than the whole.
pub proof fn lemma_slash_count_take(s: Seq<u8>, i: int)
    requires
        0 <= i <= s.len(),
    ensures
        slash_count(s.take(i)) <= slash_count(s),
    decreases s.len(),
{
    if i == s.len() {
        assert(s.take(i) =~= s);
    } else {
        assert(s.drop_last().take(i) =~= s.take(i));
        lemma_slash_count_take(s.drop_last(), i);
    }
}

/// A path strictly inside a directory is strictly deeper than it.
pub proof fn lemma_ancestor_deeper(q: Seq<u8>, p: Seq<u8>)
    requires
        is_ancestor(q, p),
    ensures
        slash_count(q) < slash_count(p),
        depth(q) < depth(p),
{
    let i = q.len() as int;
    assert(p.take(i + 1).drop_last() =~= p.take(i));
    assert(p.take(i + 1).last() == SLASH);
    assert(slash_count(p.take(i + 1)) == slash_count(q) + 1);
    lemma_slash_count_take(p, i + 1);
}

/// A normalized relative path, the cross-tree identity key of one entry.
pub struct RelPath {
    bytes: Vec<u8>,
}

impl View for RelPath {
    type V = Seq<u8>;

    closed spec fn view(&self) -> Seq<u8> {
        self.bytes@
    }
}

impl RelPath {
    /// The path is normalized.
    pub open spec fn wf(&self) -> bool {
        is_normalized(self@)
    }

    /// Validates `bytes` as a normalized relative path; rejects exactly the
    /// byte strings that are not normalized.
    pub fn new(bytes: Vec<u8>) -> (r: Option<RelPath>)
        ensures
            r is Some <==> is_normalized(bytes@),
            r matches Some(p) ==> p@ == bytes@ && p.wf(),
    {
        let n = bytes.len();
        if n == 0 {
            return None;
        }
        if bytes[0] == SLASH || bytes[n - 1] == SLASH {
            return None;
        }
        let mut i: usize = 0;
        while i < n
            invariant
                0 < n == bytes.len(),
                i <= n,
                bytes@[0] != SLASH,
                bytes@[n - 1] != SLASH,
                forall|j: int|
                    0 < j < i ==> !(bytes@[j - 1] == SLASH && #[trigger] bytes@[j] == SLASH),
                forall|j: int| 0 <= j < i ==> !dot_segment_at(bytes@, j),
                forall|j: int| 0 <= j < i && j < n - 1 ==> !dotdot_segment_at(bytes@, j),
            decreases n - i,
        {
            if i > 0 && bytes[i - 1] == SLASH && bytes[i] == SLASH {
                return None;
            }
            if bytes[i] == DOT && (i == 0 || bytes[i - 1] == SLASH) {
                if i == n - 1 || bytes[i + 1] == SLASH {
                    proof {
                        assert(dot_segment_at(bytes@, i as int));
                    }
                    return None;
                }
                if bytes[i + 1] == DOT && (i + 1 == n - 1 || bytes[i + 2] == SLASH) {
                    proof {
                        assert(dotdot_segment_at(bytes@, i as int));
                    }
                    return None;
                }
            }
            proof {
                if dot_segment_at(bytes@, i as int) {
                    assert(false);
                }
                if i < n - 1 && dotdot_segment_at(bytes@, i as int) {
                    assert(false);
                }
            }
            i += 1;
        }
        Some(RelPath { bytes })
    }

    /// A copy of this path.
    pub fn duplicate(&self) -> (r: RelPath)
        ensures
            r@ == self@,
    {
        let n = self.bytes.len();
        let mut out: Vec<u8> = Vec::new();
        let mut i: usize = 0;
        while i < n
            invariant
                n == self.bytes.len(),
                i <= n,
                out@ =~= self.bytes@.take(i as int),
            decreases n - i,
        {
            out.push(self.bytes[i]);
            i += 1;
        }
        proof {
            assert(out@ =~= self.bytes@);
        }
        RelPath { bytes: out }
    }

    /// The raw bytes of the path, for handing to the I/O shell.
    pub fn as_bytes(&self) -> (r: &Vec<u8>)
        ensures
            r@ == self@,
    {
        &self.bytes
    }

    /// Whether the two paths name the same entry.
    pub fn eq_path(&self, other: &RelPath) -> (r: bool)
        ensures
            r == (self@ == other@),
    {
        let n = self.bytes.len();
        if n != other.bytes.len() {
            proof {
                assert(self@ !~= other@);
            }
            return false;
        }
        let mut i: usize = 0;
        while i < n
            invariant
                n == self.bytes.len() == other.bytes.len(),
                i <= n,
                forall|j: int| 0 <= j < i ==> self.bytes@[j] == other.bytes@[j],
            decreases n - i,
        {
            if self.bytes[i] != other.bytes[i] {
                return false;
            }
            i += 1;
        }
        proof {
            assert(self@ =~= other@);
        }
        true
    }

    /// How many separators the path holds; its depth is one more.
    pub fn slashes(&self) -> (r: usize)
        ensures
            r == slash_count(self@),
    {
        let n = self.bytes.len();
        let mut count: usize = 0;
        let mut i: usize = 0;
        while i < n
            invariant
                n == self.bytes.len(),
                i <= n,
                count <= i,
                count == slash_count(self.bytes@.take(i as int)),
            decreases n - i,
        {
            proof {
                assert(self.bytes@.take(i + 1).drop_last() =~= self.bytes@.take(i as int));
                assert(self.bytes@.take(i + 1).last() == self.bytes@[i as int]);
            }
            if self.bytes[i] == SLASH {
                count += 1;
            }
            i += 1;
        }
        proof {
            assert(self.bytes@.take(n as int) =~= self.bytes@);
        }
        count
    }

    /// Whether this path is lexicographically at most `other`.
    pub fn lex_le_to(&self, other: &RelPath) -> (r: bool)
        ensures
            r == lex_le(self@, other@),
    {
        let a = &self.bytes;
        let b = &other.bytes;
        proof {
            assert(a@.skip(0) =~= a@);
            assert(b@.skip(0) =~= b@);
        }
        let mut i: usize = 0;
        while i < a.len() && i < b.len()
            invariant
                i <= a.len(),
                i <= b.len(),
                a@ == self@,
                b@ == other@,
                lex_le(self@, other@) == lex_le(a@.skip(i as int), b@.skip(i as int)),
            decreases a.len() - i,
        {
            let x = a[i];
            let y = b[i];
            proof {
                assert(a@.skip(i as int).len() > 0);
                assert(b@.skip(i as int).len() > 0);
                assert(a@.skip(i as int)[0] == a@[i as int]);
                assert(b@.skip(i as int)[0] == b@[i as int]);
            }
            if x < y {
                return true;
            }
            if x > y {
                return false;
            }
            proof {
                assert(a@.skip(i as int).skip(1) =~= a@.skip(i + 1));
                assert(b@.skip(i as int).skip(1) =~= b@.skip(i + 1));
            }
            i += 1;
        }
        proof {
            if i == a.len() {
                assert(a@.skip(i as int).len() == 0);
            } else {
                assert(b@.skip(i as int).len() == 0);
                assert(a@.skip(i as int).len() > 0);
            }
        }
        a.len() <= b.len()
    }

    /// Whether this path is removed no later than `other` when both are
    /// scheduled for deletion: strictly deeper first, ties broken by
    /// reverse lexicographic order.
    pub fn deletes_before(&self, other: &RelPath) -> (r: bool)
        ensures
            r == delete_before(self@, other@),
    {
        let a = self.slashes();
        let b = other.slashes();
        if a > b {
            true
        } else if a < b {
            false
        } else {
            other.lex_le_to(self)
        }
    }
}

} // verus!
