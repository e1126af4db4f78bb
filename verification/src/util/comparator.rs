//! The order of keys: a capability that tables are generic over, and the plain order of
//! byte strings.
use vstd::prelude::*;
use vstd::slice::slice_to_vec;

verus! {

/// How one key stands to another.
#[derive(PartialEq, Eq, Structural, Debug, Clone, Copy)]
pub enum Order {
    Less,
    Equal,
    Greater,
}

/// A total preorder on byte strings, with the two ways of shortening keys that index blocks
/// use. Whoever implements it answers for `le` being total and transitive.
/// The answer of `compare`, given whether the first key is no later than the second and
/// whether the second is no later than the first.
pub open spec fn order_of(first_le_second: bool, second_le_first: bool) -> Order {
    if !second_le_first {
        Order::Less
    } else if first_le_second {
        Order::Equal
    } else {
        Order::Greater
    }
}

pub trait Comparator: Copy {
    /// `a` comes no later than `b`.
    spec fn le(&self, a: Seq<u8>, b: Seq<u8>) -> bool;

    /// Any two keys are comparable.
    proof fn lemma_total(&self, a: Seq<u8>, b: Seq<u8>)
        ensures
            self.le(a, b) || self.le(b, a),
    ;

    /// The order is transitive.
    proof fn lemma_transitive(&self, a: Seq<u8>, b: Seq<u8>, c: Seq<u8>)
        requires
            self.le(a, b),
            self.le(b, c),
        ensures
            self.le(a, c),
    ;

    /// Compares two keys.
    fn compare(&self, a: &[u8], b: &[u8]) -> (o: Order)
        ensures
            o == order_of(self.le(a@, b@), self.le(b@, a@)),
    ;

    /// A name for the order, which must change when the order does.
    fn name(&self) -> &str;

    /// A key `s` with `a <= s < b`, short if possible, for `a < b`.
    fn separator(&self, a: &[u8], b: &[u8]) -> (s: Vec<u8>)
        ensures
            !self.le(b@, a@) ==> self.le(a@, s@) && !self.le(b@, s@),
    ;

    /// A key `s` with `a <= s`, short if possible.
    fn successor(&self, a: &[u8]) -> (s: Vec<u8>)
        ensures
            self.le(a@, s@),
    ;
}

/// `a` comes strictly before `b`.
pub open spec fn lt<C: Comparator>(c: C, a: Seq<u8>, b: Seq<u8>) -> bool {
    !c.le(b, a)
}

/// `a` and `b` stand at the same place in the order.
pub open spec fn equiv<C: Comparator>(c: C, a: Seq<u8>, b: Seq<u8>) -> bool {
    c.le(a, b) && c.le(b, a)
}

/// Strictly before, then no later: strictly before.
pub proof fn lemma_lt_le<C: Comparator>(c: C, x: Seq<u8>, y: Seq<u8>, z: Seq<u8>)
    requires
        lt(c, x, y),
        c.le(y, z),
    ensures
        lt(c, x, z),
{
    if c.le(z, x) {
        c.lemma_transitive(y, z, x);
    }
}

/// No later, then strictly before: strictly before.
pub proof fn lemma_le_lt<C: Comparator>(c: C, x: Seq<u8>, y: Seq<u8>, z: Seq<u8>)
    requires
        c.le(x, y),
        lt(c, y, z),
    ensures
        lt(c, x, z),
{
    if c.le(z, x) {
        c.lemma_transitive(z, x, y);
    }
}

/// Strictly before implies no later.
pub proof fn lemma_lt_implies_le<C: Comparator>(c: C, x: Seq<u8>, y: Seq<u8>)
    requires
        lt(c, x, y),
    ensures
        c.le(x, y),
{
    c.lemma_total(x, y);
}

/// `a` is no later than `b` in the lexicographic order of bytes, given that the two agree
/// before index `i`.
pub open spec fn lex_le(a: Seq<u8>, b: Seq<u8>, i: int) -> bool
    decreases a.len() - i,
{
    if i >= a.len() {
        true
    } else if i >= b.len() {
        false
    } else if a[i] != b[i] {
        a[i] < b[i]
    } else {
        lex_le(a, b, i + 1)
    }
}

/// The lexicographic order of byte strings: the first byte that differs decides, and a
/// prefix comes before what it is a prefix of.
pub open spec fn bytewise_le(a: Seq<u8>, b: Seq<u8>) -> bool {
    lex_le(a, b, 0)
}

/// Where two strings agree from `i` up to `j`, comparing from `i` is comparing from `j`.
pub proof fn lemma_lex_skip(a: Seq<u8>, b: Seq<u8>, i: int, j: int)
    requires
        0 <= i <= j,
        j <= a.len(),
        j <= b.len(),
        forall|k: int| i <= k < j ==> a[k] == b[k],
    ensures
        lex_le(a, b, i) == lex_le(a, b, j),
    decreases j - i,
{
    if i < j {
        lemma_lex_skip(a, b, i + 1, j);
    }
}

proof fn lemma_lex_total(a: Seq<u8>, b: Seq<u8>, i: int)
    requires
        0 <= i,
    ensures
        lex_le(a, b, i) || lex_le(b, a, i),
    decreases a.len() - i,
{
    if i < a.len() && i < b.len() && a[i] == b[i] {
        lemma_lex_total(a, b, i + 1);
    }
}

proof fn lemma_lex_transitive(a: Seq<u8>, b: Seq<u8>, c: Seq<u8>, i: int)
    requires
        0 <= i,
        lex_le(a, b, i),
        lex_le(b, c, i),
    ensures
        lex_le(a, c, i),
    decreases a.len() - i,
{
    if i < a.len() && i < b.len() && i < c.len() && a[i] == b[i] && b[i] == c[i] {
        lemma_lex_transitive(a, b, c, i + 1);
    }
}

/// In the lexicographic order, each of two strings is no later than the other only if
/// they are the same string.
pub proof fn lemma_lex_antisymmetric(a: Seq<u8>, b: Seq<u8>, i: int)
    requires
        0 <= i <= a.len(),
        i <= b.len(),
        lex_le(a, b, i),
        lex_le(b, a, i),
    ensures
        a.subrange(i, a.len() as int) == b.subrange(i, b.len() as int),
    decreases a.len() - i,
{
    if i < a.len() && i < b.len() {
        lemma_lex_antisymmetric(a, b, i + 1);
        assert(a.subrange(i, a.len() as int) =~= seq![a[i]] + a.subrange(i + 1, a.len() as int));
        assert(b.subrange(i, b.len() as int) =~= seq![b[i]] + b.subrange(i + 1, b.len() as int));
    } else {
        assert(a.subrange(i, a.len() as int) =~= b.subrange(i, b.len() as int));
    }
}

/// Keys that stand at the same place in the order `c` are the same key.
pub open spec fn exact_order<C: Comparator>(c: C) -> bool {
    forall|a: Seq<u8>, b: Seq<u8>| #[trigger] c.le(a, b) && c.le(b, a) ==> a == b
}

/// In the lexicographic order of bytes, keys at the same place are the same key.
pub proof fn lemma_bytewise_exact()
    ensures
        exact_order(BytewiseComparator {  }),
{
    assert forall|a: Seq<u8>, b: Seq<u8>| #[trigger]
        bytewise_le(a, b) && bytewise_le(b, a) implies a == b by {
        lemma_lex_antisymmetric(a, b, 0);
        assert(a.subrange(0, a.len() as int) =~= a);
        assert(b.subrange(0, b.len() as int) =~= b);
    }
}

/// The lexicographic order of bytes.
#[derive(Debug, Clone, Copy)]
pub struct BytewiseComparator {}

impl BytewiseComparator {
    /// The order of the bytes.
    pub fn new() -> (c: Self)
        ensures
            c == (BytewiseComparator {  }),
    {
        BytewiseComparator {  }
    }
}

impl Default for BytewiseComparator {
    fn default() -> (c: Self)
        ensures
            c == (BytewiseComparator {  }),
    {
        BytewiseComparator {  }
    }
}

impl Comparator for BytewiseComparator {
    open spec fn le(&self, a: Seq<u8>, b: Seq<u8>) -> bool {
        bytewise_le(a, b)
    }

    proof fn lemma_total(&self, a: Seq<u8>, b: Seq<u8>) {
        lemma_lex_total(a, b, 0);
    }

    proof fn lemma_transitive(&self, a: Seq<u8>, b: Seq<u8>, c: Seq<u8>) {
        lemma_lex_transitive(a, b, c, 0);
    }

    fn compare(&self, a: &[u8], b: &[u8]) -> (o: Order) {
        let mut i: usize = 0;
        while i < a.len() && i < b.len()
            invariant
                i <= a@.len(),
                i <= b@.len(),
                forall|k: int| 0 <= k < i ==> a@[k] == b@[k],
            decreases a@.len() - i,
        {
            if a[i] != b[i] {
                proof {
                    lemma_lex_skip(a@, b@, 0, i as int);
                    lemma_lex_skip(b@, a@, 0, i as int);
                }
                if a[i] < b[i] {
                    return Order::Less;
                } else {
                    return Order::Greater;
                }
            }
            i = i + 1;
        }
        proof {
            lemma_lex_skip(a@, b@, 0, i as int);
            lemma_lex_skip(b@, a@, 0, i as int);
        }
        if a.len() < b.len() {
            Order::Less
        } else if a.len() == b.len() {
            Order::Equal
        } else {
            Order::Greater
        }
    }

    /// The name of the order of the bytes.
    fn name(&self) -> (s: &str)
        ensures
            s@ == "leveldb.BytewiseComparator"@,
    {
        "leveldb.BytewiseComparator"
    }

    /// The common prefix of `a` and `b` followed by the next byte of `a` plus one, where that
    /// is still below the byte of `b` at that place; otherwise `a` itself.
    fn separator(&self, a: &[u8], b: &[u8]) -> (s: Vec<u8>)
        ensures
            s@ == spec_bytewise_separator(a@, b@),
    {
        let mut d: usize = 0;
        while d < a.len() && d < b.len() && a[d] == b[d]
            invariant
                d <= a@.len(),
                d <= b@.len(),
                forall|k: int| 0 <= k < d ==> a@[k] == b@[k],
            decreases a@.len() - d,
        {
            d = d + 1;
        }
        proof {
            lemma_common_prefix_is(a@, b@, d as int);
            lemma_separator_between(a@, b@);
        }
        let mut s: Vec<u8> = slice_to_vec(a);
        if d < a.len() && d < b.len() {
            let byte: u8 = a[d];
            if byte < 0xff && byte + 1 < b[d] {
                s.truncate(d + 1);
                s.set(d, byte + 1);
                assert(s@ =~= a@.subrange(0, d as int).push((byte + 1) as u8));
            }
        }
        s
    }

    /// `a` cut after its first byte that is not `0xff`, that byte raised by one; `a` itself
    /// where all its bytes are `0xff`.
    fn successor(&self, a: &[u8]) -> (s: Vec<u8>)
        ensures
            s@ == spec_bytewise_successor(a@),
    {
        let mut i: usize = 0;
        while i < a.len() && a[i] == 0xff
            invariant
                i <= a@.len(),
                forall|k: int| 0 <= k < i ==> a@[k] == 0xff,
            decreases a@.len() - i,
        {
            i = i + 1;
        }
        proof {
            lemma_first_below_max_is(a@, i as int);
            lemma_successor_after(a@);
        }
        let mut s: Vec<u8> = slice_to_vec(a);
        if i < a.len() {
            let byte: u8 = a[i];
            s.truncate(i + 1);
            s.set(i, byte + 1);
            assert(s@ =~= a@.subrange(0, i as int).push((byte + 1) as u8));
        }
        s
    }
}

/// The length of the longest common prefix of `a` and `b`.
pub open spec fn common_prefix_len(a: Seq<u8>, b: Seq<u8>) -> int {
    common_prefix_from(a, b, 0)
}

/// The first index from `i` on at which `a` and `b` differ or one of them ends.
pub open spec fn common_prefix_from(a: Seq<u8>, b: Seq<u8>, i: int) -> int
    decreases a.len() - i,
{
    if 0 <= i < a.len() && i < b.len() && a[i] == b[i] {
        common_prefix_from(a, b, i + 1)
    } else {
        i
    }
}

/// The common prefix length is the one index up to which the strings agree and at which
/// they differ or end.
pub proof fn lemma_common_prefix_is(a: Seq<u8>, b: Seq<u8>, d: int)
    requires
        0 <= d <= a.len(),
        d <= b.len(),
        forall|k: int| 0 <= k < d ==> a[k] == b[k],
        d == a.len() || d == b.len() || a[d] != b[d],
    ensures
        common_prefix_len(a, b) == d,
{
    lemma_common_prefix_step(a, b, 0, d);
}

proof fn lemma_common_prefix_step(a: Seq<u8>, b: Seq<u8>, i: int, d: int)
    requires
        0 <= i <= d <= a.len(),
        d <= b.len(),
        forall|k: int| 0 <= k < d ==> a[k] == b[k],
        d == a.len() || d == b.len() || a[d] != b[d],
    ensures
        common_prefix_from(a, b, i) == d,
    decreases d - i,
{
    if i < d {
        lemma_common_prefix_step(a, b, i + 1, d);
    }
}

/// The common prefix is within both strings, and the strings agree on it.
pub proof fn lemma_common_prefix_bounds(a: Seq<u8>, b: Seq<u8>)
    ensures
        0 <= common_prefix_len(a, b) <= a.len(),
        common_prefix_len(a, b) <= b.len(),
        forall|k: int| 0 <= k < common_prefix_len(a, b) ==> a[k] == b[k],
{
    lemma_common_prefix_from_bounds(a, b, 0);
}

proof fn lemma_common_prefix_from_bounds(a: Seq<u8>, b: Seq<u8>, i: int)
    requires
        0 <= i <= a.len(),
        i <= b.len(),
    ensures
        i <= common_prefix_from(a, b, i) <= a.len(),
        common_prefix_from(a, b, i) <= b.len(),
        forall|k: int| i <= k < common_prefix_from(a, b, i) ==> a[k] == b[k],
    decreases a.len() - i,
{
    if i < a.len() && i < b.len() && a[i] == b[i] {
        lemma_common_prefix_from_bounds(a, b, i + 1);
    }
}

/// What `BytewiseComparator::separator` returns.
pub open spec fn spec_bytewise_separator(a: Seq<u8>, b: Seq<u8>) -> Seq<u8> {
    let d = common_prefix_len(a, b);
    if d < a.len() && d < b.len() && a[d] < 0xff && a[d] + 1 < b[d] {
        a.subrange(0, d).push((a[d] + 1) as u8)
    } else {
        a
    }
}

/// The separator of `a < b` lies between them: `a <= s < b`.
pub proof fn lemma_separator_between(a: Seq<u8>, b: Seq<u8>)
    ensures
        bytewise_le(a, spec_bytewise_separator(a, b)),
        !bytewise_le(b, a) ==> !bytewise_le(b, spec_bytewise_separator(a, b)),
{
    let d = common_prefix_len(a, b);
    let s = spec_bytewise_separator(a, b);
    lemma_common_prefix_bounds(a, b);
    if d < a.len() && d < b.len() && a[d] < 0xff && a[d] + 1 < b[d] {
        assert(s.len() == d + 1);
        assert(forall|k: int| 0 <= k < d ==> a[k] == s[k]);
        lemma_lex_skip(a, s, 0, d);
        assert(forall|k: int| 0 <= k < d ==> b[k] == s[k]);
        lemma_lex_skip(b, s, 0, d);
    } else {
        lemma_lex_total(a, a, 0);
    }
}

/// The index of the first byte of `a` from `i` on that is not `0xff`, or the length of `a`.
pub open spec fn first_below_max(a: Seq<u8>, i: int) -> int
    decreases a.len() - i,
{
    if 0 <= i < a.len() && a[i] == 0xff {
        first_below_max(a, i + 1)
    } else {
        i
    }
}

proof fn lemma_first_below_max_is(a: Seq<u8>, i: int)
    requires
        0 <= i <= a.len(),
        forall|k: int| 0 <= k < i ==> a[k] == 0xff,
        i == a.len() || a[i] != 0xff,
    ensures
        first_below_max(a, 0) == i,
{
    lemma_first_below_max_step(a, 0, i);
}

proof fn lemma_first_below_max_step(a: Seq<u8>, j: int, i: int)
    requires
        0 <= j <= i <= a.len(),
        forall|k: int| 0 <= k < i ==> a[k] == 0xff,
        i == a.len() || a[i] != 0xff,
    ensures
        first_below_max(a, j) == i,
    decreases i - j,
{
    if j < i {
        lemma_first_below_max_step(a, j + 1, i);
    }
}

proof fn lemma_first_below_max_bounds(a: Seq<u8>, j: int)
    requires
        0 <= j <= a.len(),
    ensures
        j <= first_below_max(a, j) <= a.len(),
        first_below_max(a, j) < a.len() ==> a[first_below_max(a, j)] != 0xff,
    decreases a.len() - j,
{
    if j < a.len() && a[j] == 0xff {
        lemma_first_below_max_bounds(a, j + 1);
    }
}

/// What `BytewiseComparator::successor` returns.
pub open spec fn spec_bytewise_successor(a: Seq<u8>) -> Seq<u8> {
    let i = first_below_max(a, 0);
    if i < a.len() {
        a.subrange(0, i).push((a[i] + 1) as u8)
    } else {
        a
    }
}

/// The successor of `a` is no earlier than `a`.
pub proof fn lemma_successor_after(a: Seq<u8>)
    ensures
        bytewise_le(a, spec_bytewise_successor(a)),
{
    let i = first_below_max(a, 0);
    let s = spec_bytewise_successor(a);
    lemma_first_below_max_bounds(a, 0);
    if i < a.len() {
        assert(forall|k: int| 0 <= k < i ==> a[k] == s[k]);
        lemma_lex_skip(a, s, 0, i);
    } else {
        lemma_lex_total(a, a, 0);
    }
}

/// A copy of `a` with its bytes in reverse order.
pub fn reversed(a: &[u8]) -> (r: Vec<u8>)
    ensures
        r@ == a@.reverse(),
{
    let mut r: Vec<u8> = Vec::new();
    let mut i: usize = a.len();
    while i > 0
        invariant
            i <= a@.len(),
            r@.len() == a@.len() - i,
            forall|k: int| 0 <= k < r@.len() ==> r@[k] == a@[a@.len() - 1 - k],
        decreases i,
    {
        i = i - 1;
        r.push(a[i]);
    }
    assert(r@ =~= a@.reverse());
    r
}

/// The lexicographic order of keys read from their last byte to their first.
#[derive(Debug, Clone, Copy)]
pub struct ReverseComparator {}

impl ReverseComparator {
    /// The reverse of the order of the bytes.
    pub fn new() -> (c: Self)
        ensures
            c == (ReverseComparator {  }),
    {
        ReverseComparator {  }
    }
}

impl Default for ReverseComparator {
    fn default() -> (c: Self)
        ensures
            c == (ReverseComparator {  }),
    {
        ReverseComparator {  }
    }
}

impl Comparator for ReverseComparator {
    open spec fn le(&self, a: Seq<u8>, b: Seq<u8>) -> bool {
        bytewise_le(a.reverse(), b.reverse())
    }

    proof fn lemma_total(&self, a: Seq<u8>, b: Seq<u8>) {
        lemma_lex_total(a.reverse(), b.reverse(), 0);
    }

    proof fn lemma_transitive(&self, a: Seq<u8>, b: Seq<u8>, c: Seq<u8>) {
        lemma_lex_transitive(a.reverse(), b.reverse(), c.reverse(), 0);
    }

    fn compare(&self, a: &[u8], b: &[u8]) -> (o: Order) {
        let x = reversed(a);
        let y = reversed(b);
        BytewiseComparator {  }.compare(x.as_slice(), y.as_slice())
    }

    /// The name of the order of the bytes read backwards.
    fn name(&self) -> (s: &str)
        ensures
            s@ == "wickdb.ReverseBytewiseComparator"@,
    {
        "wickdb.ReverseBytewiseComparator"
    }

    /// The bytewise separator of the two keys read backwards, read backwards.
    fn separator(&self, a: &[u8], b: &[u8]) -> (s: Vec<u8>)
        ensures
            s@ == spec_bytewise_separator(a@.reverse(), b@.reverse()).reverse(),
    {
        let x = reversed(a);
        let y = reversed(b);
        let t = BytewiseComparator {  }.separator(x.as_slice(), y.as_slice());
        proof {
            lemma_separator_between(x@, y@);
            assert(t@.reverse().reverse() =~= t@);
        }
        reversed(t.as_slice())
    }

    /// The bytewise successor of the key read backwards, read backwards.
    fn successor(&self, a: &[u8]) -> (s: Vec<u8>)
        ensures
            s@ == spec_bytewise_successor(a@.reverse()).reverse(),
    {
        let x = reversed(a);
        let t = BytewiseComparator {  }.successor(x.as_slice());
        proof {
            lemma_successor_after(x@);
            assert(t@.reverse().reverse() =~= t@);
        }
        reversed(t.as_slice())
    }
}

/// The order `C` turned around: what came first comes last.
#[derive(Debug, Clone, Copy)]
pub struct Descending<C: Comparator> {
    pub inner: C,
}

impl<C: Comparator> Descending<C> {
    pub fn new(inner: C) -> (c: Self)
        ensures
            c.inner == inner,
    {
        Descending { inner }
    }
}

impl<C: Comparator> Comparator for Descending<C> {
    open spec fn le(&self, a: Seq<u8>, b: Seq<u8>) -> bool {
        self.inner.le(b, a)
    }

    proof fn lemma_total(&self, a: Seq<u8>, b: Seq<u8>) {
        self.inner.lemma_total(b, a);
    }

    proof fn lemma_transitive(&self, a: Seq<u8>, b: Seq<u8>, c: Seq<u8>) {
        self.inner.lemma_transitive(c, b, a);
    }

    fn compare(&self, a: &[u8], b: &[u8]) -> (o: Order) {
        self.inner.compare(b, a)
    }

    /// The name of an order turned round, whatever order it turns round.
    fn name(&self) -> (s: &str)
        ensures
            s@ == "wickdb.DescendingComparator"@,
    {
        "wickdb.DescendingComparator"
    }

    /// The first key itself: no key is cut short in this order.
    fn separator(&self, a: &[u8], b: &[u8]) -> (s: Vec<u8>)
        ensures
            s@ == a@,
    {
        proof {
            self.inner.lemma_total(a@, a@);
        }
        slice_to_vec(a)
    }

    /// The key itself.
    fn successor(&self, a: &[u8]) -> (s: Vec<u8>)
        ensures
            s@ == a@,
    {
        proof {
            self.inner.lemma_total(a@, a@);
        }
        slice_to_vec(a)
    }
}

} // verus!
