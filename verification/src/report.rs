//! Error reporting: numbering errors and the chains of errors that caused
//! them.
//!
//! Errors are visited depth first: a child error is visited one level deeper
//! than the error it caused. Each error is identified by its depth and its
//! position among the errors visited at that depth, and each such position is
//! given a number the first time it is needed.

use vstd::prelude::*;

use crate::text::{decimal, push_decimal, push_str};

verus! {

/// The number given to position `(d, c)`, if any.
pub open spec fn lookup(names: Seq<(usize, usize, u64)>, d: int, c: int) -> Option<u64>
    decreases names.len(),
{
    if names.len() == 0 {
        None
    } else if names.last().0 == d && names.last().1 == c {
        Some(names.last().2)
    } else {
        lookup(names.drop_last(), d, c)
    }
}

/// Number the positions `(d, counts[d])` for `d < k` that have no number yet,
/// in order of depth, starting at `next`: the numbers and the next free number.
pub open spec fn allocate(names: Seq<(usize, usize, u64)>, next: int, counts: Seq<usize>, k: int) -> (Seq<(usize, usize, u64)>, int)
    decreases k,
{
    if k <= 0 {
        (names, next)
    } else {
        let (n1, x1) = allocate(names, next, counts, k - 1);
        if lookup(n1, k - 1, counts[k - 1] as int) is Some {
            (n1, x1)
        } else {
            (n1.push(((k - 1) as usize, counts[k - 1], x1 as u64)), x1 + 1)
        }
    }
}

/// The numbers of the positions `(d, counts[d])` from depth `depth` down to
/// depth 0: the current error first, the root error last.
pub open spec fn chain(names: Seq<(usize, usize, u64)>, counts: Seq<usize>, depth: int) -> Seq<u64> {
    Seq::new((depth + 1) as nat, |i: int| lookup(names, depth - i, counts[depth - i] as int)->0)
}

fn find_name(names: &Vec<(usize, usize, u64)>, d: usize, c: usize) -> (r: Option<u64>)
    ensures
        r == lookup(names@, d as int, c as int),
{
    let mut i = names.len();
    assert(names@.take(i as int) =~= names@);
    while i > 0
        invariant
            i <= names@.len(),
            lookup(names@, d as int, c as int) == lookup(names@.take(i as int), d as int, c as int),
        decreases i,
    {
        let ghost t = names@.take(i as int);
        assert(t.drop_last() =~= names@.take(i - 1));
        let (nd, nc, x) = names[i - 1];
        if nd == d && nc == c {
            return Some(x);
        }
        i = i - 1;
    }
    None
}

proof fn lemma_allocate(names: Seq<(usize, usize, u64)>, next: int, counts: Seq<usize>, k: int)
    requires
        0 <= k <= counts.len(),
        counts.len() <= usize::MAX,
    ensures
        forall|j: int| 0 <= j < k ==> (#[trigger] lookup(allocate(names, next, counts, k).0, j, counts[j] as int)) is Some,
        next <= allocate(names, next, counts, k).1 <= next + k,
    decreases k,
{
    if k > 0 {
        lemma_allocate(names, next, counts, k - 1);
        let (n1, x1) = allocate(names, next, counts, k - 1);
        if lookup(n1, k - 1, counts[k - 1] as int) is None {
            let n2 = n1.push(((k - 1) as usize, counts[k - 1], x1 as u64));
            assert(n2.drop_last() =~= n1);
            assert forall|j: int| 0 <= j < k implies (#[trigger] lookup(n2, j, counts[j] as int)) is Some by {
                if j < k - 1 {
                    assert(lookup(n1, j, counts[j] as int) is Some);
                }
            }
        }
    }
}

/// A number found for a position was given to it by some entry.
proof fn lemma_lookup_entry(names: Seq<(usize, usize, u64)>, d: int, c: int)
    requires
        lookup(names, d, c) is Some,
    ensures
        exists|i: int| 0 <= i < names.len() && #[trigger] names[i] == (d as usize, c as usize, lookup(names, d, c)->0) && names[i].0 == d
            && names[i].1 == c,
    decreases names.len(),
{
    if names.last().0 == d && names.last().1 == c {
        assert(names[names.len() - 1] == names.last());
    } else {
        lemma_lookup_entry(names.drop_last(), d, c);
        let i = choose|i: int| 0 <= i < names.drop_last().len() && #[trigger] names.drop_last()[i] == (d as usize, c as usize, lookup(names, d, c)->0)
            && names.drop_last()[i].0 == d && names.drop_last()[i].1 == c;
        assert(names[i] == names.drop_last()[i]);
    }
}

/// Where every position above depth `k` has a number already, numbering
/// them allocates nothing.
proof fn lemma_allocate_numbered(names: Seq<(usize, usize, u64)>, next: int, counts: Seq<usize>, k: int)
    requires
        0 <= k <= counts.len(),
        forall|j: int| 0 <= j < k ==> (#[trigger] lookup(names, j, counts[j] as int)) is Some,
    ensures
        allocate(names, next, counts, k) == (names, next),
    decreases k,
{
    if k > 0 {
        lemma_allocate_numbered(names, next, counts, k - 1);
    }
}

/// The sum of `s`.
pub open spec fn total(s: Seq<usize>) -> int
    decreases s.len(),
{
    if s.len() == 0 {
        0
    } else {
        total(s.drop_last()) + s.last()
    }
}

proof fn lemma_total_update(s: Seq<usize>, i: int, v: usize)
    requires
        0 <= i < s.len(),
    ensures
        total(s.update(i, v)) == total(s) - s[i] + v,
    decreases s.len(),
{
    let u = s.update(i, v);
    if i == s.len() - 1 {
        assert(u.drop_last() =~= s.drop_last());
    } else {
        assert(u.drop_last() =~= s.drop_last().update(i, v));
        lemma_total_update(s.drop_last(), i, v);
    }
}

/// The numbering state of an error report.
pub struct Numbering {
    first: bool,
    depth: usize,
    depth_counts: Vec<usize>,
    names: Vec<(usize, usize, u64)>,
    next_name: u64,
}

impl Numbering {
    /// The state is consistent: the current depth has a count.
    pub closed spec fn wf(&self) -> bool {
        &&& self.depth < self.depth_counts@.len()
        &&& self.next_name >= 1
    }

    /// The state is one that calls made in order reach: every error above
    /// the current depth on the way to it has its number, and every number
    /// given so far belongs to a position already counted and lies between 1
    /// and the next number to give, which is one more than the number of
    /// errors visited. Starting from [`Numbering::new`],
    /// [`Numbering::visit`] and [`Numbering::pop`] keep it, and so does
    /// [`Numbering::push`] right after a visit, as in a depth-first walk.
    pub open spec fn in_protocol(&self) -> bool {
        &&& self.wf()
        &&& forall|j: int| 0 <= j < self.depth() ==> (#[trigger] lookup(self.names(), j, self.counts()[j] as int)) is Some
        &&& forall|i: int| 0 <= i < self.names().len() ==> {
            let e = #[trigger] self.names()[i];
            &&& (e.0 as int) < self.counts().len()
            &&& e.1 <= self.counts()[e.0 as int]
            &&& 1 <= e.2 < self.next_name()
        }
        &&& self.next_name() == self.visits() + 1
    }

    /// How many errors have been visited: each visit counts one at its depth.
    pub open spec fn visits(&self) -> int {
        total(self.counts())
    }

    /// The last error visited at the current depth has its number.
    pub open spec fn current_numbered(&self) -> bool {
        lookup(self.names(), self.depth(), self.counts()[self.depth()] as int) is Some
    }

    /// Whether nothing has been visited yet.
    pub closed spec fn is_first(&self) -> bool {
        self.first
    }

    /// The current depth.
    pub closed spec fn depth(&self) -> int {
        self.depth as int
    }

    /// How many errors have been visited at each depth so far.
    pub closed spec fn counts(&self) -> Seq<usize> {
        self.depth_counts@
    }

    /// The numbers given so far, by depth and count.
    pub closed spec fn names(&self) -> Seq<(usize, usize, u64)> {
        self.names@
    }

    /// The next number to give.
    pub closed spec fn next_name(&self) -> int {
        self.next_name as int
    }

    /// Start numbering: nothing visited, depth 0, numbers from 1.
    pub fn new() -> (r: Numbering)
        ensures
            r.wf(),
            r.is_first(),
            r.depth() == 0,
            r.counts() == seq![0usize],
            r.names() == Seq::<(usize, usize, u64)>::empty(),
            r.next_name() == 1,
            r.in_protocol(),
    {
        let mut depth_counts: Vec<usize> = Vec::new();
        depth_counts.push(0);
        assert(depth_counts@.drop_last() =~= Seq::<usize>::empty());
        assert(total(depth_counts@.drop_last()) == 0);
        assert(total(depth_counts@) == 0);
        Numbering { first: true, depth: 0, depth_counts, names: Vec::new(), next_name: 1 }
    }

    /// Visit an error at the current depth. Returns whether a separator must
    /// come before it (every error but the first) and the numbers of the
    /// chain that leads to it, the error itself first and the root error last.
    pub fn visit(&mut self) -> (r: (bool, Vec<u64>))
        requires
            old(self).wf(),
            old(self).counts()[old(self).depth()] < usize::MAX,
            old(self).next_name() + old(self).depth() + 1 <= u64::MAX,
        ensures
            final(self).wf(),
            r.0 == !old(self).is_first(),
            !final(self).is_first(),
            final(self).depth() == old(self).depth(),
            final(self).counts() == old(self).counts().update(old(self).depth(), (old(self).counts()[old(self).depth()] + 1) as usize),
            (final(self).names(), final(self).next_name()) == allocate(
                old(self).names(),
                old(self).next_name(),
                final(self).counts(),
                old(self).depth() + 1,
            ),
            r.1@ == chain(final(self).names(), final(self).counts(), old(self).depth() as int),
            old(self).in_protocol() ==> {
                &&& final(self).in_protocol()
                &&& final(self).current_numbered()
                &&& r.1@[0] == old(self).next_name()
                &&& r.1@[0] == final(self).visits()
                &&& final(self).next_name() == old(self).next_name() + 1
                &&& forall|i: int| 0 <= i < old(self).names().len() ==> #[trigger] old(self).names()[i].2 != r.1@[0]
                &&& forall|i: int| 0 < i < r.1@.len() ==> #[trigger] r.1@[i] < old(self).next_name()
            },
    {
        let ghost pre = *self;
        let separate = !self.first;
        self.first = false;
        let d = self.depth;
        let len = self.depth_counts.len();
        let c = self.depth_counts[d] + 1;
        self.depth_counts.set(d, c);
        // Number positions depth first.
        let ghost names0 = self.names@;
        let ghost next0 = self.next_name as int;
        let ghost counts1 = self.depth_counts@;
        for k in 0..d + 1
            invariant
                d < self.depth_counts@.len(),
                d == self.depth,
                (self.names@, self.next_name as int) == allocate(names0, next0, self.depth_counts@, k as int),
                self.next_name as int <= next0 + k,
                next0 + d + 1 <= u64::MAX,
                next0 >= 1,
                self.depth < self.depth_counts@.len(),
                self.next_name >= 1,
                !self.first,
                self.depth_counts@ == counts1,
                len == self.depth_counts@.len(),
        {
            proof {
                lemma_allocate(names0, next0, self.depth_counts@, k as int);
            }
            let ck = self.depth_counts[k];
            if find_name(&self.names, k, ck).is_none() {
                let x = self.next_name;
                self.names.push((k, ck, x));
                self.next_name = x + 1;
            }
        }
        proof {
            lemma_allocate(names0, next0, self.depth_counts@, d + 1);
        }
        // Read the chain back, current error first.
        let mut numbers: Vec<u64> = Vec::new();
        for i in 0..d + 1
            invariant
                d < self.depth_counts@.len(),
                numbers@ == chain(self.names@, self.depth_counts@, d as int).take(i as int),
                len == self.depth_counts@.len(),
                forall|k: int| 0 <= k <= d ==> (#[trigger] lookup(self.names@, k, self.depth_counts@[k] as int)) is Some,
        {
            let k = d - i;
            match find_name(&self.names, k, self.depth_counts[k]) {
                Some(x) => numbers.push(x),
                None => {
                    assert(false);
                },
            }
            assert(numbers@ =~= chain(self.names@, self.depth_counts@, d as int).take(i + 1));
        }
        assert(numbers@ =~= chain(self.names@, self.depth_counts@, d as int));
        proof {
            if pre.in_protocol() {
                lemma_visit_in_protocol(pre, *self, numbers@);
            }
        }
        (separate, numbers)
    }

    /// Descend one level, to the children of the last visited error.
    pub fn push(&mut self)
        requires
            old(self).wf(),
            old(self).depth() < usize::MAX,
        ensures
            final(self).wf(),
            final(self).depth() == old(self).depth() + 1,
            final(self).counts() == if old(self).depth() + 1 >= old(self).counts().len() {
                old(self).counts().push(0)
            } else {
                old(self).counts()
            },
            final(self).names() == old(self).names(),
            final(self).next_name() == old(self).next_name(),
            final(self).is_first() == old(self).is_first(),
            old(self).in_protocol() && old(self).current_numbered() ==> final(self).in_protocol(),
    {
        let ghost before = self.depth_counts@;
        self.depth = self.depth + 1;
        if self.depth > self.depth_counts.len() - 1 {
            self.depth_counts.push(0);
            assert(self.depth_counts@.drop_last() =~= before);
        }
    }

    /// Go back up one level. The counts of the deeper level are kept, since
    /// that level may be visited again.
    pub fn pop(&mut self)
        requires
            old(self).wf(),
            old(self).depth() > 0,
        ensures
            final(self).wf(),
            final(self).depth() == old(self).depth() - 1,
            final(self).counts() == old(self).counts(),
            final(self).names() == old(self).names(),
            final(self).next_name() == old(self).next_name(),
            final(self).is_first() == old(self).is_first(),
            old(self).in_protocol() ==> final(self).in_protocol(),
    {
        self.depth = self.depth - 1;
    }
}

/// One visit from a state in protocol: the new position gets the next
/// number, and the state stays in protocol.
proof fn lemma_visit_in_protocol(pre: Numbering, post: Numbering, numbers: Seq<u64>)
    requires
        pre.in_protocol(),
        pre.counts()[pre.depth()] < usize::MAX,
        pre.next_name() + pre.depth() + 1 <= u64::MAX,
        post.wf(),
        post.depth() == pre.depth(),
        post.counts() == pre.counts().update(pre.depth(), (pre.counts()[pre.depth()] + 1) as usize),
        (post.names(), post.next_name()) == allocate(pre.names(), pre.next_name(), post.counts(), pre.depth() + 1),
        numbers == chain(post.names(), post.counts(), pre.depth()),
    ensures
        post.in_protocol(),
        post.current_numbered(),
        numbers[0] == pre.next_name(),
        numbers[0] == post.visits(),
        post.next_name() == pre.next_name() + 1,
        forall|i: int| 0 <= i < pre.names().len() ==> #[trigger] pre.names()[i].2 != numbers[0],
        forall|i: int| 0 < i < numbers.len() ==> #[trigger] numbers[i] < pre.next_name(),
{
    let d = pre.depth();
    let c = post.counts()[d];
    lemma_total_update(pre.counts(), d, c);
    let names = pre.names();
    let next = pre.next_name();
    assert forall|j: int| 0 <= j < d implies (#[trigger] lookup(names, j, post.counts()[j] as int)) is Some by {
        assert(post.counts()[j] == pre.counts()[j]);
    }
    lemma_allocate_numbered(names, next, post.counts(), d);
    if lookup(names, d, c as int) is Some {
        lemma_lookup_entry(names, d, c as int);
        let i = choose|i: int| 0 <= i < names.len() && #[trigger] names[i] == (d as usize, c as usize, lookup(names, d, c as int)->0)
            && names[i].0 == d && names[i].1 == c;
        assert(names[i].1 <= pre.counts()[d]);
    }
    let entry = (d as usize, c, next as u64);
    assert(post.names() == names.push(entry));
    assert(post.names().drop_last() =~= names);
    assert forall|j: int| 0 <= j < d implies (#[trigger] lookup(post.names(), j, post.counts()[j] as int)) is Some by {
        assert(lookup(names, j, post.counts()[j] as int) is Some);
    }
    assert forall|i: int| 0 <= i < post.names().len() implies {
        let e = #[trigger] post.names()[i];
        &&& (e.0 as int) < post.counts().len()
        &&& e.1 <= post.counts()[e.0 as int]
        &&& 1 <= e.2 < post.next_name()
    } by {
        if i < names.len() {
            assert(post.names()[i] == names[i]);
            let e = names[i];
            assert(e.1 <= pre.counts()[e.0 as int]);
        }
    }
    assert(numbers[0] == lookup(post.names(), d, c as int)->0);
    assert forall|i: int| 0 < i < numbers.len() implies #[trigger] numbers[i] < pre.next_name() by {
        let j = d - i;
        assert(numbers[i] == lookup(post.names(), j, post.counts()[j] as int)->0);
        assert(post.counts()[j] == pre.counts()[j]);
        assert(lookup(names, j, pre.counts()[j] as int) is Some);
        lemma_lookup_entry(names, j, pre.counts()[j] as int);
        let k = choose|k: int| 0 <= k < names.len() && #[trigger] names[k] == (j as usize, pre.counts()[j], lookup(names, j, pre.counts()[j] as int)->0)
            && names[k].0 == j && names[k].1 == pre.counts()[j];
        assert(names[k].2 < next);
    }
}

/// How the `i`-th number of a chain of `n` numbers is written in a report
/// header: `Error #3 (which caused #2, causing #1)` for the chain `3, 2, 1`,
/// `Error #1` alone for a chain of one.
pub open spec fn header_part(x: u64, i: int, n: int) -> Seq<char> {
    if n == 1 {
        "Error #"@ + decimal(x as nat)
    } else if i == 0 {
        "Error #"@ + decimal(x as nat) + " (which caused "@
    } else if i == n - 1 {
        "#"@ + decimal(x as nat) + ")"@
    } else {
        "#"@ + decimal(x as nat) + ", causing "@
    }
}

/// The first `k` parts of the header for `chain`.
pub open spec fn header_parts(chain: Seq<u64>, k: int) -> Seq<char>
    decreases k,
{
    if k <= 0 {
        Seq::empty()
    } else {
        header_parts(chain, k - 1) + header_part(chain[k - 1], k - 1, chain.len() as int)
    }
}

/// `parts` joined by `sep`: the separator between each two parts.
pub open spec fn join(parts: Seq<Seq<char>>, sep: Seq<char>) -> Seq<char>
    decreases parts.len(),
{
    if parts.len() == 0 {
        Seq::empty()
    } else if parts.len() == 1 {
        parts[0]
    } else {
        join(parts.drop_last(), sep) + sep + parts.last()
    }
}

/// The references `#x` to the errors of `chain` after the first: those that
/// the first error caused, in turn.
pub open spec fn cause_refs(chain: Seq<u64>) -> Seq<Seq<char>> {
    Seq::new((chain.len() - 1) as nat, |i: int| "#"@ + decimal(chain[i + 1] as nat))
}

proof fn lemma_header_prefix(chain: Seq<u64>, k: int)
    requires
        chain.len() >= 2,
        2 <= k < chain.len(),
    ensures
        header_parts(chain, k) == "Error #"@ + decimal(chain[0] as nat) + " (which caused "@ + join(
            cause_refs(chain).take(k - 1),
            ", causing "@,
        ) + ", causing "@,
    decreases k,
{
    let n = chain.len() as int;
    let refs = cause_refs(chain);
    if k == 2 {
        assert(header_parts(chain, 0) == Seq::<char>::empty());
        assert(refs.take(1) =~= seq![refs[0]]);
        assert(join(refs.take(1), ", causing "@) == refs[0]);
        assert(refs[0] == "#"@ + decimal(chain[1] as nat));
        assert(header_parts(chain, 1) == header_parts(chain, 0) + header_part(chain[0], 0, n));
        assert(header_parts(chain, 2) == header_parts(chain, 1) + header_part(chain[1], 1, n));
        assert(header_parts(chain, 2) =~= "Error #"@ + decimal(chain[0] as nat) + " (which caused "@ + join(refs.take(1), ", causing "@)
            + ", causing "@);
    } else {
        lemma_header_prefix(chain, k - 1);
        assert(refs.take(k - 1).drop_last() =~= refs.take(k - 2));
        assert(refs.take(k - 1).last() == refs[k - 2]);
        assert(header_parts(chain, k) =~= "Error #"@ + decimal(chain[0] as nat) + " (which caused "@ + join(
            refs.take(k - 1),
            ", causing "@,
        ) + ", causing "@);
    }
}

/// The header of an error names it first, then the errors that it caused,
/// from the nearest to the root: `Error #a` alone, or
/// `Error #a (which caused #b, causing #c, ...)`.
pub proof fn lemma_header(chain: Seq<u64>)
    requires
        chain.len() >= 1,
    ensures
        chain.len() == 1 ==> header_parts(chain, 1) == "Error #"@ + decimal(chain[0] as nat),
        chain.len() >= 2 ==> header_parts(chain, chain.len() as int) == "Error #"@ + decimal(chain[0] as nat)
            + " (which caused "@ + join(cause_refs(chain), ", causing "@) + ")"@,
{
    let n = chain.len() as int;
    assert(header_parts(chain, 0) == Seq::<char>::empty());
    if n == 1 {
        assert(header_parts(chain, 1) =~= "Error #"@ + decimal(chain[0] as nat));
    } else {
        let refs = cause_refs(chain);
        if n == 2 {
            assert(refs =~= seq![refs[0]]);
            assert(join(refs, ", causing "@) == refs[0]);
            assert(refs[0] == "#"@ + decimal(chain[1] as nat));
            assert(header_parts(chain, 1) == header_parts(chain, 0) + header_part(chain[0], 0, n));
            assert(header_parts(chain, 2) == header_parts(chain, 1) + header_part(chain[1], 1, n));
            assert(header_parts(chain, 2) =~= "Error #"@ + decimal(chain[0] as nat) + " (which caused "@ + join(refs, ", causing "@)
                + ")"@);
        } else {
            lemma_header_prefix(chain, n - 1);
            assert(refs.take(n - 1) =~= refs);
            assert(refs.take(n - 2) =~= refs.drop_last());
            assert(refs.last() == refs[n - 2]);
            assert(header_parts(chain, n) =~= "Error #"@ + decimal(chain[0] as nat) + " (which caused "@ + join(refs, ", causing "@)
                + ")"@);
        }
    }
}

/// The header line of an error in a report, given the chain of numbers that
/// leads to it, the error itself first.
pub fn fmt_header(chain: &Vec<u64>) -> (r: String)
    ensures
        r@ == header_parts(chain@, chain@.len() as int),
{
    let mut s = String::new();
    let n = chain.len();
    for i in 0..n
        invariant
            n == chain@.len(),
            s@ == header_parts(chain@, i as int),
    {
        let ghost s0 = s@;
        let x = chain[i];
        if n == 1 {
            push_str(&mut s, "Error #");
            push_decimal(&mut s, x);
        } else if i == 0 {
            push_str(&mut s, "Error #");
            push_decimal(&mut s, x);
            push_str(&mut s, " (which caused ");
        } else if i == n - 1 {
            push_str(&mut s, "#");
            push_decimal(&mut s, x);
            push_str(&mut s, ")");
        } else {
            push_str(&mut s, "#");
            push_decimal(&mut s, x);
            push_str(&mut s, ", causing ");
        }
        assert(s@ =~= s0 + header_part(x, i as int, n as int));
    }
    s
}

/// The body of an error in a report: its description, then its help and its
/// note on lines of their own, where it has them.
pub open spec fn body(description: Seq<char>, help: Option<Seq<char>>, note: Option<Seq<char>>) -> Seq<char> {
    "Description: "@ + description + match help {
        Some(h) => "\nHelp: "@ + h,
        None => Seq::empty(),
    } + match note {
        Some(n) => "\nNote: "@ + n,
        None => Seq::empty(),
    }
}

/// Write the main content of an error: description, help and note.
pub fn fmt_body(description: &str, help: Option<&str>, note: Option<&str>) -> (r: String)
    ensures
        r@ == body(
            description@,
            match help {
                Some(h) => Some(h@),
                None => None,
            },
            match note {
                Some(n) => Some(n@),
                None => None,
            },
        ),
{
    let mut s = String::new();
    push_str(&mut s, "Description: ");
    push_str(&mut s, description);
    let ghost s1 = s@;
    match help {
        Some(h) => {
            push_str(&mut s, "\nHelp: ");
            push_str(&mut s, h);
            assert(s@ =~= s1 + ("\nHelp: "@ + h@));
        },
        None => {
            assert(s@ =~= s1 + Seq::<char>::empty());
        },
    }
    let ghost s2 = s@;
    match note {
        Some(n) => {
            push_str(&mut s, "\nNote: ");
            push_str(&mut s, n);
            assert(s@ =~= s2 + ("\nNote: "@ + n@));
        },
        None => {
            assert(s@ =~= s2 + Seq::<char>::empty());
        },
    }
    s
}

/// The text of one error in a report: a blank line before it where
/// `separate` (every error but the first), its header line, then its body.
pub open spec fn entry(
    separate: bool,
    chain: Seq<u64>,
    description: Seq<char>,
    help: Option<Seq<char>>,
    note: Option<Seq<char>>,
) -> Seq<char> {
    (if separate {
        "\n\n"@
    } else {
        Seq::empty()
    }) + header_parts(chain, chain.len() as int) + "\n"@ + body(description, help, note)
}

/// Write one error of a report: the separator where `separate`, the header
/// for `chain` (the error itself first), and the body.
pub fn fmt_entry(separate: bool, chain: &Vec<u64>, description: &str, help: Option<&str>, note: Option<&str>) -> (r: String)
    ensures
        r@ == entry(
            separate,
            chain@,
            description@,
            match help {
                Some(h) => Some(h@),
                None => None,
            },
            match note {
                Some(n) => Some(n@),
                None => None,
            },
        ),
{
    let mut s = String::new();
    if separate {
        push_str(&mut s, "\n\n");
    }
    let ghost s0 = s@;
    let header = fmt_header(chain);
    push_str(&mut s, header.as_str());
    push_str(&mut s, "\n");
    let b = fmt_body(description, help, note);
    push_str(&mut s, b.as_str());
    assert(s@ =~= s0 + header@ + "\n"@ + b@);
    s
}

} // verus!
