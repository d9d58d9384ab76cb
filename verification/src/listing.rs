//! The listing of the groups of an Engage file and their tasks: the groups
//! in name order, each followed by its tasks in name order.

use vstd::prelude::*;

use crate::engage::{group_names, strings_view, Engage, Task};
use crate::text::push_str;

verus! {

/// `a` comes before `b`, or equals it, in the order of their bytes.
pub open spec fn bytes_le(a: Seq<u8>, b: Seq<u8>) -> bool
    decreases a.len(),
{
    if a.len() == 0 {
        true
    } else if b.len() == 0 {
        false
    } else if a[0] != b[0] {
        a[0] < b[0]
    } else {
        bytes_le(a.drop_first(), b.drop_first())
    }
}

/// Names ordered as strings compare: by their UTF-8 bytes.
pub open spec fn name_le(a: Seq<char>, b: Seq<char>) -> bool {
    bytes_le(vstd::utf8::encode_utf8(a), vstd::utf8::encode_utf8(b))
}

proof fn lemma_bytes_le_total(a: Seq<u8>, b: Seq<u8>)
    ensures
        bytes_le(a, b) || bytes_le(b, a),
    decreases a.len(),
{
    if a.len() > 0 && b.len() > 0 && a[0] == b[0] {
        lemma_bytes_le_total(a.drop_first(), b.drop_first());
    }
}

proof fn lemma_bytes_le_trans(a: Seq<u8>, b: Seq<u8>, c: Seq<u8>)
    requires
        bytes_le(a, b),
        bytes_le(b, c),
    ensures
        bytes_le(a, c),
    decreases a.len(),
{
    if a.len() > 0 && b.len() > 0 && c.len() > 0 && a[0] == b[0] && b[0] == c[0] {
        lemma_bytes_le_trans(a.drop_first(), b.drop_first(), c.drop_first());
    }
}

/// Compare two strings as `str` compares them.
fn str_le(a: &str, b: &str) -> (r: bool)
    ensures
        r == name_le(a@, b@),
{
    let x = a.as_bytes();
    let y = b.as_bytes();
    let mut i: usize = 0;
    assert(x@.skip(0) =~= x@ && y@.skip(0) =~= y@);
    loop
        invariant
            i <= x@.len(),
            i <= y@.len(),
            x@ == vstd::utf8::encode_utf8(a@),
            y@ == vstd::utf8::encode_utf8(b@),
            bytes_le(x@, y@) == bytes_le(x@.skip(i as int), y@.skip(i as int)),
        decreases x@.len() - i,
    {
        if i == x.len() {
            return true;
        }
        if i == y.len() {
            return false;
        }
        if x[i] != y[i] {
            return x[i] < y[i];
        }
        assert(x@.skip(i as int).drop_first() =~= x@.skip(i + 1));
        assert(y@.skip(i as int).drop_first() =~= y@.skip(i + 1));
        i = i + 1;
    }
}

/// The indices `0..n`, in order.
pub open spec fn indices(n: nat) -> Seq<usize> {
    Seq::new(n, |k: int| k as usize)
}

/// `p` orders the indices of `names` so that the names come sorted: it is
/// a permutation of the indices, and the names it lists are in order.
pub open spec fn sorts(names: Seq<Seq<char>>, p: Seq<usize>) -> bool {
    &&& p.len() == names.len()
    &&& p.to_multiset() == indices(names.len()).to_multiset()
    &&& forall|i: int| 0 <= i < p.len() ==> #[trigger] p[i] < names.len()
    &&& forall|i: int, j: int| 0 <= i < j < p.len() ==> #[trigger] p[i] != #[trigger] p[j]
    &&& forall|i: int, j: int|
        0 <= i < j < p.len() ==> name_le(names[#[trigger] p[i] as int], names[#[trigger] p[j] as int])
}

/// The order that sorts `names`.
pub(crate) fn sorted_order(names: &Vec<String>) -> (r: Vec<usize>)
    ensures
        sorts(strings_view(names@), r@),
{
    let ghost ns = strings_view(names@);
    let mut r: Vec<usize> = Vec::new();
    assert(indices(0) =~= r@);
    for i in 0..names.len()
        invariant
            ns == strings_view(names@),
            r@.len() == i,
            r@.to_multiset() == indices(i as nat).to_multiset(),
            forall|k: int| 0 <= k < r@.len() ==> #[trigger] r@[k] < i,
            forall|a: int, b: int| 0 <= a < b < r@.len() ==> #[trigger] r@[a] != #[trigger] r@[b],
            forall|a: int, b: int|
                0 <= a < b < r@.len() ==> name_le(ns[#[trigger] r@[a] as int], ns[#[trigger] r@[b] as int]),
    {
        // The first position whose name comes strictly after name `i`.
        let mut pos: usize = 0;
        loop
            invariant
                ns == strings_view(names@),
                i < names@.len(),
                pos <= r@.len(),
                forall|k: int| 0 <= k < r@.len() ==> #[trigger] r@[k] < i,
                forall|k: int| 0 <= k < pos ==> name_le(ns[#[trigger] r@[k] as int], ns[i as int]),
            ensures
                pos <= r@.len(),
                forall|k: int| 0 <= k < pos ==> name_le(ns[#[trigger] r@[k] as int], ns[i as int]),
                pos < r@.len() ==> !name_le(ns[r@[pos as int] as int], ns[i as int]),
            decreases r@.len() - pos,
        {
            if pos == r.len() {
                break;
            }
            let below = str_le(names[r[pos]].as_str(), names[i].as_str());
            if !below {
                break;
            }
            pos = pos + 1;
        }
        let ghost old_r = r@;
        r.insert(pos, i);
        proof {
            let q = r@;
            assert(q == old_r.insert(pos as int, i));
            vstd::seq_lib::to_multiset_insert(old_r, pos as int, i);
            assert(indices((i + 1) as nat) =~= indices(i as nat).push(i));
            vstd::seq_lib::to_multiset_build(indices(i as nat), i);
            assert forall|k: int| 0 <= k < q.len() implies #[trigger] q[k] < i + 1 by {
                if k < pos {
                    assert(q[k] == old_r[k]);
                } else if k > pos {
                    assert(q[k] == old_r[k - 1]);
                }
            }
            assert forall|a: int, b: int| 0 <= a < b < q.len() implies #[trigger] q[a] != #[trigger] q[b] by {
                if a < pos {
                    assert(q[a] == old_r[a]);
                } else if a > pos {
                    assert(q[a] == old_r[a - 1]);
                }
                if b < pos {
                    assert(q[b] == old_r[b]);
                } else if b > pos {
                    assert(q[b] == old_r[b - 1]);
                }
            }
            assert forall|a: int, b: int| 0 <= a < b < q.len() implies name_le(
                ns[#[trigger] q[a] as int],
                ns[#[trigger] q[b] as int],
            ) by {
                let x = ns[i as int];
                if a < pos && b < pos {
                    assert(q[a] == old_r[a] && q[b] == old_r[b]);
                } else if a < pos && b == pos {
                    assert(q[a] == old_r[a]);
                } else if a < pos && b > pos {
                    assert(q[a] == old_r[a] && q[b] == old_r[b - 1]);
                    if a < b - 1 {
                        assert(name_le(ns[old_r[a] as int], ns[old_r[b - 1] as int]));
                    }
                    // Either b - 1 is `pos`, whose name follows `x`, or it
                    // follows a name that follows `x`.
                    lemma_bytes_le_total(
                        vstd::utf8::encode_utf8(ns[old_r[pos as int] as int]),
                        vstd::utf8::encode_utf8(x),
                    );
                    lemma_bytes_le_trans(
                        vstd::utf8::encode_utf8(ns[old_r[a] as int]),
                        vstd::utf8::encode_utf8(x),
                        vstd::utf8::encode_utf8(ns[old_r[pos as int] as int]),
                    );
                    if b - 1 > pos {
                        assert(name_le(ns[old_r[pos as int] as int], ns[old_r[b - 1] as int]));
                        lemma_bytes_le_trans(
                            vstd::utf8::encode_utf8(ns[old_r[a] as int]),
                            vstd::utf8::encode_utf8(ns[old_r[pos as int] as int]),
                            vstd::utf8::encode_utf8(ns[old_r[b - 1] as int]),
                        );
                    }
                } else if a == pos {
                    assert(q[b] == old_r[b - 1]);
                    lemma_bytes_le_total(
                        vstd::utf8::encode_utf8(ns[old_r[pos as int] as int]),
                        vstd::utf8::encode_utf8(x),
                    );
                    if b - 1 > pos {
                        assert(name_le(ns[old_r[pos as int] as int], ns[old_r[b - 1] as int]));
                        lemma_bytes_le_trans(
                            vstd::utf8::encode_utf8(x),
                            vstd::utf8::encode_utf8(ns[old_r[pos as int] as int]),
                            vstd::utf8::encode_utf8(ns[old_r[b - 1] as int]),
                        );
                    }
                } else {
                    assert(q[a] == old_r[a - 1] && q[b] == old_r[b - 1]);
                }
            }
        }
    }
    r
}

} // verus!

verus! {

/// The names of `tasks`.
pub open spec fn task_names(tasks: Seq<Task>) -> Seq<Seq<char>> {
    tasks.map_values(|t: Task| t.name@)
}

/// The lines of the tasks of `ts`, given as (name, group), that belong to
/// group `g`, in order: each name indented by four spaces.
pub open spec fn task_lines(ts: Seq<(Seq<char>, Seq<char>)>, g: Seq<char>) -> Seq<char>
    decreases ts.len(),
{
    if ts.len() == 0 {
        Seq::empty()
    } else {
        task_lines(ts.drop_last(), g) + if ts.last().1 == g {
            "    "@ + ts.last().0 + "\n"@
        } else {
            Seq::empty()
        }
    }
}

/// The listing of the first `k` of the groups `gs`: each group's name and a
/// colon on a line, then its task lines, with a blank line between groups.
pub open spec fn list_text(gs: Seq<Seq<char>>, ts: Seq<(Seq<char>, Seq<char>)>, k: int) -> Seq<char>
    decreases k,
{
    if k <= 0 {
        Seq::empty()
    } else {
        list_text(gs, ts, k - 1) + gs[k - 1] + ":\n"@ + task_lines(ts, gs[k - 1]) + if k < gs.len() {
            "\n"@
        } else {
            Seq::empty()
        }
    }
}

/// The names in the order `p`.
pub open spec fn in_order(names: Seq<Seq<char>>, p: Seq<usize>) -> Seq<Seq<char>> {
    p.map_values(|i: usize| names[i as int])
}

/// The (name, group) pairs of `tasks` in the order `p`.
pub open spec fn tasks_in_order(tasks: Seq<Task>, p: Seq<usize>) -> Seq<(Seq<char>, Seq<char>)> {
    p.map_values(|i: usize| (tasks[i as int].name@, tasks[i as int].group@))
}

fn clone_names_of_tasks(tasks: &Vec<Task>) -> (r: Vec<String>)
    ensures
        strings_view(r@) == task_names(tasks@),
{
    let mut r: Vec<String> = Vec::new();
    for i in 0..tasks.len()
        invariant
            strings_view(r@) == task_names(tasks@).take(i as int),
    {
        let ghost prev = r@;
        r.push(tasks[i].name.clone());
        assert(strings_view(r@) =~= strings_view(prev).push(tasks@[i as int].name@));
        assert(strings_view(r@) =~= task_names(tasks@).take(i + 1));
    }
    assert(task_names(tasks@).take(tasks@.len() as int) =~= task_names(tasks@));
    r
}

impl Engage {
    /// The names of the groups.
    fn group_name_list(&self) -> (r: Vec<String>)
        ensures
            strings_view(r@) == group_names(self.groups@),
    {
        let mut r: Vec<String> = Vec::new();
        for i in 0..self.groups.len()
            invariant
                strings_view(r@) == group_names(self.groups@).take(i as int),
        {
            let ghost prev = r@;
            r.push(self.groups[i].name.clone());
            assert(strings_view(r@) =~= strings_view(prev).push(self.groups@[i as int].name@));
            assert(strings_view(r@) =~= group_names(self.groups@).take(i + 1));
        }
        assert(group_names(self.groups@).take(self.groups@.len() as int) =~= group_names(self.groups@));
        r
    }

    /// List the groups and their tasks: the groups sorted by name, each
    /// followed by its tasks sorted by name. Orders that sort the names exist,
    /// and the listing is the same for every one of them.
    pub fn fmt_list(&self) -> (r: String)
        ensures
            exists|pg: Seq<usize>, pt: Seq<usize>|
                #![trigger sorts(group_names(self.groups@), pg), sorts(task_names(self.tasks@), pt)]
                sorts(group_names(self.groups@), pg) && sorts(task_names(self.tasks@), pt),
            forall|pg: Seq<usize>, pt: Seq<usize>|
                #![trigger sorts(group_names(self.groups@), pg), sorts(task_names(self.tasks@), pt)]
                sorts(group_names(self.groups@), pg) && sorts(task_names(self.tasks@), pt) ==> r@ == list_text(
                    in_order(group_names(self.groups@), pg),
                    tasks_in_order(self.tasks@, pt),
                    self.groups@.len() as int,
                ),
    {
        let gnames = self.group_name_list();
        let tnames = clone_names_of_tasks(&self.tasks);
        let pg = sorted_order(&gnames);
        let pt = sorted_order(&tnames);
        let ghost gs = in_order(group_names(self.groups@), pg@);
        let ghost ts = tasks_in_order(self.tasks@, pt@);
        let n = pg.len();
        let mut s = String::new();
        for i in 0..n
            invariant
                n == pg@.len(),
                n == self.groups@.len(),
                gs == in_order(group_names(self.groups@), pg@),
                ts == tasks_in_order(self.tasks@, pt@),
                sorts(group_names(self.groups@), pg@),
                sorts(task_names(self.tasks@), pt@),
                s@ == list_text(gs, ts, i as int),
        {
            let g = &self.groups[pg[i]];
            let ghost s0 = s@;
            push_str(&mut s, g.name.as_str());
            push_str(&mut s, ":\n");
            let ghost s1 = s@;
            for j in 0..pt.len()
                invariant
                    ts == tasks_in_order(self.tasks@, pt@),
                    sorts(task_names(self.tasks@), pt@),
                    s@ == s1 + task_lines(ts.take(j as int), g.name@),
            {
                let t = &self.tasks[pt[j]];
                let ghost before = s@;
                assert(ts.take(j + 1).drop_last() =~= ts.take(j as int));
                if t.group == g.name {
                    push_str(&mut s, "    ");
                    push_str(&mut s, t.name.as_str());
                    push_str(&mut s, "\n");
                    assert(s@ =~= before + ("    "@ + t.name@ + "\n"@));
                } else {
                    assert(s@ =~= before + Seq::<char>::empty());
                }
                assert(s@ =~= s1 + task_lines(ts.take(j + 1), g.name@));
            }
            assert(ts.take(pt@.len() as int) =~= ts);
            if i + 1 < n {
                push_str(&mut s, "\n");
            }
            assert(gs[i as int] == g.name@);
            assert(s@ =~= list_text(gs, ts, i + 1));
        }
        let task_count = self.tasks.len();
        proof {
            assert(task_count == self.tasks@.len());
            assert forall|pg2: Seq<usize>, pt2: Seq<usize>|
                #![trigger sorts(group_names(self.groups@), pg2), sorts(task_names(self.tasks@), pt2)]
                sorts(group_names(self.groups@), pg2) && sorts(task_names(self.tasks@), pt2) implies s@ == list_text(
                    in_order(group_names(self.groups@), pg2),
                    tasks_in_order(self.tasks@, pt2),
                    self.groups@.len() as int,
                ) by {
                lemma_listing_deterministic(self.groups@, self.tasks@, pg@, pt@, pg2, pt2);
            }
        }
        s
    }
}

} // verus!

verus! {

proof fn lemma_bytes_le_refl(a: Seq<u8>)
    ensures
        bytes_le(a, a),
    decreases a.len(),
{
    if a.len() > 0 {
        lemma_bytes_le_refl(a.drop_first());
    }
}

proof fn lemma_bytes_le_antisym(a: Seq<u8>, b: Seq<u8>)
    requires
        bytes_le(a, b),
        bytes_le(b, a),
    ensures
        a == b,
    decreases a.len(),
{
    if a.len() > 0 && b.len() > 0 {
        lemma_bytes_le_antisym(a.drop_first(), b.drop_first());
        assert(a =~= seq![a[0]] + a.drop_first());
        assert(b =~= seq![b[0]] + b.drop_first());
    } else {
        assert(a.len() == 0 && b.len() == 0);
        assert(a =~= b);
    }
}

/// Two names that each come before or with the other are the same name.
proof fn lemma_name_le_antisym(a: Seq<char>, b: Seq<char>)
    requires
        name_le(a, b),
        name_le(b, a),
    ensures
        a == b,
{
    lemma_bytes_le_antisym(vstd::utf8::encode_utf8(a), vstd::utf8::encode_utf8(b));
    vstd::utf8::encode_utf8_decode_utf8(a);
    vstd::utf8::encode_utf8_decode_utf8(b);
}

/// The names of `s` are sorted.
pub open spec fn names_sorted(s: Seq<Seq<char>>) -> bool {
    forall|i: int, j: int| 0 <= i < j < s.len() ==> name_le(#[trigger] s[i], #[trigger] s[j])
}

/// Two sorted lists of the same names, counted with multiplicity, are the
/// same list.
proof fn lemma_sorted_unique(a: Seq<Seq<char>>, b: Seq<Seq<char>>)
    requires
        names_sorted(a),
        names_sorted(b),
        a.to_multiset() == b.to_multiset(),
    ensures
        a == b,
    decreases a.len(),
{
    broadcast use vstd::seq_lib::to_multiset_contains, vstd::seq_lib::to_multiset_len, vstd::multiset::group_multiset_axioms;

    vstd::seq_lib::to_multiset_len(a);
    vstd::seq_lib::to_multiset_len(b);
    if a.len() == 0 {
        assert(b.len() == 0);
        assert(a =~= b);
    } else {
        let x = a.last();
        let y = b.last();
        assert(a.contains(x)) by {
            assert(a[a.len() - 1] == x);
        }
        vstd::seq_lib::to_multiset_contains(a, x);
        vstd::seq_lib::to_multiset_contains(b, x);
        assert(b.contains(y)) by {
            assert(b[b.len() - 1] == y);
        }
        vstd::seq_lib::to_multiset_contains(a, y);
        vstd::seq_lib::to_multiset_contains(b, y);
        assert(b.contains(x));
        assert(a.contains(y));
        let k = choose|k: int| 0 <= k < b.len() && b[k] == x;
        let l = choose|l: int| 0 <= l < a.len() && a[l] == y;
        lemma_bytes_le_refl(vstd::utf8::encode_utf8(x));
        lemma_bytes_le_refl(vstd::utf8::encode_utf8(y));
        if k < b.len() - 1 {
            assert(name_le(b[k], b[b.len() - 1]));
        }
        if l < a.len() - 1 {
            assert(name_le(a[l], a[a.len() - 1]));
        }
        lemma_name_le_antisym(x, y);
        let a1 = a.drop_last();
        let b1 = b.drop_last();
        assert(a =~= a1.push(x));
        assert(b =~= b1.push(y));
        vstd::seq_lib::to_multiset_build(a1, x);
        vstd::seq_lib::to_multiset_build(b1, y);
        assert(a1.to_multiset() =~= a.to_multiset().remove(x));
        assert(b1.to_multiset() =~= b.to_multiset().remove(y));
        lemma_sorted_unique(a1, b1);
        assert(a =~= b);
    }
}

/// Lists with the same elements, counted with multiplicity, keep them when
/// each element is mapped by `f`.
proof fn lemma_map_same_multiset<A, B>(a: Seq<A>, b: Seq<A>, f: spec_fn(A) -> B)
    requires
        a.to_multiset() == b.to_multiset(),
    ensures
        a.map_values(f).to_multiset() == b.map_values(f).to_multiset(),
    decreases a.len(),
{
    broadcast use vstd::seq_lib::to_multiset_contains, vstd::seq_lib::to_multiset_len, vstd::multiset::group_multiset_axioms;

    vstd::seq_lib::to_multiset_len(a);
    vstd::seq_lib::to_multiset_len(b);
    if a.len() == 0 {
        assert(b.len() == 0);
        assert(a.map_values(f) =~= b.map_values(f));
    } else {
        let y = a.last();
        let a1 = a.drop_last();
        assert(a =~= a1.push(y));
        vstd::seq_lib::to_multiset_build(a1, y);
        assert(a.contains(y)) by {
            assert(a[a.len() - 1] == y);
        }
        vstd::seq_lib::to_multiset_contains(a, y);
        vstd::seq_lib::to_multiset_contains(b, y);
        assert(b.contains(y));
        let k = choose|k: int| 0 <= k < b.len() && b[k] == y;
        let b1 = b.remove(k);
        vstd::seq_lib::to_multiset_remove(b, k);
        assert(a1.to_multiset() =~= a.to_multiset().remove(y));
        lemma_map_same_multiset(a1, b1, f);
        assert(a.map_values(f) =~= a1.map_values(f).push(f(y)));
        vstd::seq_lib::to_multiset_build(a1.map_values(f), f(y));
        assert(b1.map_values(f) =~= b.map_values(f).remove(k));
        vstd::seq_lib::to_multiset_remove(b.map_values(f), k);
        assert(b.map_values(f).to_multiset().contains(f(y))) by {
            assert(b.map_values(f)[k] == f(y));
            assert(b.map_values(f).contains(f(y)));
        }
        assert(b.map_values(f).to_multiset() =~= b1.map_values(f).to_multiset().insert(f(y)));
    }
}

/// The names that a sorting order lists are the names themselves, in
/// another order.
proof fn lemma_in_order_multiset(names: Seq<Seq<char>>, p: Seq<usize>)
    requires
        sorts(names, p),
        names.len() <= usize::MAX,
    ensures
        in_order(names, p).to_multiset() == names.to_multiset(),
        names_sorted(in_order(names, p)),
{
    let f = |i: usize| names[i as int];
    lemma_map_same_multiset(p, indices(names.len()), f);
    assert forall|k: int| 0 <= k < names.len() implies #[trigger] indices(names.len()).map_values(f)[k] == names[k] by {
        assert(indices(names.len())[k] == k as usize);
    }
    assert(indices(names.len()).map_values(f) =~= names);
    assert(in_order(names, p) =~= p.map_values(f));
}

} // verus!

verus! {

/// The names of the tasks of `ts`, given as (name, group), that belong to
/// group `g`, in order.
pub open spec fn names_in_group(ts: Seq<(Seq<char>, Seq<char>)>, g: Seq<char>) -> Seq<Seq<char>>
    decreases ts.len(),
{
    if ts.len() == 0 {
        Seq::empty()
    } else {
        let prev = names_in_group(ts.drop_last(), g);
        if ts.last().1 == g {
            prev.push(ts.last().0)
        } else {
            prev
        }
    }
}

/// Each name on a line of its own, indented by four spaces.
pub open spec fn lines(names: Seq<Seq<char>>) -> Seq<char>
    decreases names.len(),
{
    if names.len() == 0 {
        Seq::empty()
    } else {
        lines(names.drop_last()) + ("    "@ + names.last() + "\n"@)
    }
}

proof fn lemma_task_lines(ts: Seq<(Seq<char>, Seq<char>)>, g: Seq<char>)
    ensures
        task_lines(ts, g) == lines(names_in_group(ts, g)),
    decreases ts.len(),
{
    if ts.len() > 0 {
        lemma_task_lines(ts.drop_last(), g);
        if ts.last().1 == g {
            assert(names_in_group(ts, g).drop_last() =~= names_in_group(ts.drop_last(), g));
        } else {
            assert(task_lines(ts, g) =~= task_lines(ts.drop_last(), g));
        }
    }
}

/// How often a name occurs among the names of group `g` is how often the
/// pair of that name and `g` occurs.
proof fn lemma_names_in_group_count(ts: Seq<(Seq<char>, Seq<char>)>, g: Seq<char>, x: Seq<char>)
    ensures
        names_in_group(ts, g).to_multiset().count(x) == ts.to_multiset().count((x, g)),
    decreases ts.len(),
{
    broadcast use vstd::multiset::group_multiset_axioms;

    if ts.len() == 0 {
        vstd::seq_lib::to_multiset_len(ts);
        vstd::seq_lib::to_multiset_len(names_in_group(ts, g));
    } else {
        let t1 = ts.drop_last();
        lemma_names_in_group_count(t1, g, x);
        assert(ts =~= t1.push(ts.last()));
        vstd::seq_lib::to_multiset_build(t1, ts.last());
        if ts.last().1 == g {
            vstd::seq_lib::to_multiset_build(names_in_group(t1, g), ts.last().0);
        }
    }
}

proof fn lemma_names_in_group_multiset(a: Seq<(Seq<char>, Seq<char>)>, b: Seq<(Seq<char>, Seq<char>)>, g: Seq<char>)
    requires
        a.to_multiset() == b.to_multiset(),
    ensures
        names_in_group(a, g).to_multiset() == names_in_group(b, g).to_multiset(),
{
    assert forall|x: Seq<char>| #[trigger] names_in_group(a, g).to_multiset().count(x) == names_in_group(
        b,
        g,
    ).to_multiset().count(x) by {
        lemma_names_in_group_count(a, g, x);
        lemma_names_in_group_count(b, g, x);
    }
    assert(names_in_group(a, g).to_multiset() =~= names_in_group(b, g).to_multiset());
}

/// Each name of group `g` is the name of some task of `ts` at or before a
/// given position.
proof fn lemma_names_in_group_from(ts: Seq<(Seq<char>, Seq<char>)>, g: Seq<char>, i: int)
    requires
        0 <= i < names_in_group(ts, g).len(),
    ensures
        exists|k: int| 0 <= k < ts.len() && #[trigger] ts[k].0 == names_in_group(ts, g)[i],
    decreases ts.len(),
{
    let t1 = ts.drop_last();
    if i < names_in_group(t1, g).len() {
        lemma_names_in_group_from(t1, g, i);
        let k = choose|k: int| 0 <= k < t1.len() && #[trigger] t1[k].0 == names_in_group(t1, g)[i];
        assert(ts[k] == t1[k]);
    } else {
        assert(ts[ts.len() - 1].0 == names_in_group(ts, g)[i]);
    }
}

/// Keeping the tasks of one group keeps them sorted by name.
proof fn lemma_names_in_group_sorted(ts: Seq<(Seq<char>, Seq<char>)>, g: Seq<char>)
    requires
        forall|i: int, j: int| 0 <= i < j < ts.len() ==> name_le(#[trigger] ts[i].0, #[trigger] ts[j].0),
    ensures
        names_sorted(names_in_group(ts, g)),
    decreases ts.len(),
{
    if ts.len() > 0 {
        let t1 = ts.drop_last();
        assert forall|i: int, j: int| 0 <= i < j < t1.len() implies name_le(#[trigger] t1[i].0, #[trigger] t1[j].0) by {
            assert(t1[i] == ts[i] && t1[j] == ts[j]);
        }
        lemma_names_in_group_sorted(t1, g);
        let prev = names_in_group(t1, g);
        if ts.last().1 == g {
            let s = names_in_group(ts, g);
            assert forall|i: int, j: int| 0 <= i < j < s.len() implies name_le(#[trigger] s[i], #[trigger] s[j]) by {
                if j < prev.len() {
                    assert(s[i] == prev[i] && s[j] == prev[j]);
                } else {
                    assert(s[i] == prev[i]);
                    lemma_names_in_group_from(t1, g, i);
                    let k = choose|k: int| 0 <= k < t1.len() && #[trigger] t1[k].0 == prev[i];
                    assert(name_le(ts[k].0, ts[ts.len() - 1].0));
                }
            }
        }
    }
}

/// The listing over two lists of tasks that give each group the same lines.
proof fn lemma_list_text_same(
    gs: Seq<Seq<char>>,
    ts1: Seq<(Seq<char>, Seq<char>)>,
    ts2: Seq<(Seq<char>, Seq<char>)>,
    k: int,
)
    requires
        forall|g: Seq<char>| #[trigger] task_lines(ts1, g) == task_lines(ts2, g),
    ensures
        list_text(gs, ts1, k) == list_text(gs, ts2, k),
    decreases k,
{
    if k > 0 {
        lemma_list_text_same(gs, ts1, ts2, k - 1);
        assert(task_lines(ts1, gs[k - 1]) == task_lines(ts2, gs[k - 1]));
    }
}

/// The (name, group) pairs of the tasks, in their order.
pub open spec fn task_pairs(tasks: Seq<Task>) -> Seq<(Seq<char>, Seq<char>)> {
    tasks.map_values(|t: Task| (t.name@, t.group@))
}

proof fn lemma_tasks_in_order(tasks: Seq<Task>, pt: Seq<usize>)
    requires
        sorts(task_names(tasks), pt),
        tasks.len() <= usize::MAX,
    ensures
        tasks_in_order(tasks, pt).to_multiset() == task_pairs(tasks).to_multiset(),
        forall|i: int, j: int|
            0 <= i < j < pt.len() ==> name_le(
                #[trigger] tasks_in_order(tasks, pt)[i].0,
                #[trigger] tasks_in_order(tasks, pt)[j].0,
            ),
{
    let f = |i: usize| (tasks[i as int].name@, tasks[i as int].group@);
    lemma_map_same_multiset(pt, indices(tasks.len()), f);
    assert forall|k: int| 0 <= k < tasks.len() implies #[trigger] indices(tasks.len()).map_values(f)[k]
        == task_pairs(tasks)[k] by {
        assert(indices(tasks.len())[k] == k as usize);
    }
    assert(indices(tasks.len()).map_values(f) =~= task_pairs(tasks));
    assert(tasks_in_order(tasks, pt) =~= pt.map_values(f));
    let s = tasks_in_order(tasks, pt);
    assert forall|i: int, j: int| 0 <= i < j < pt.len() implies name_le(#[trigger] s[i].0, #[trigger] s[j].0) by {
        assert(s[i].0 == task_names(tasks)[pt[i] as int]);
        assert(s[j].0 == task_names(tasks)[pt[j] as int]);
    }
}

/// The listing does not depend on which sorting orders are used: groups or
/// tasks with equal names are listed the same whichever comes first.
pub proof fn lemma_listing_deterministic(
    groups: Seq<crate::engage::Group>,
    tasks: Seq<Task>,
    pg1: Seq<usize>,
    pt1: Seq<usize>,
    pg2: Seq<usize>,
    pt2: Seq<usize>,
)
    requires
        groups.len() <= usize::MAX,
        tasks.len() <= usize::MAX,
        sorts(group_names(groups), pg1),
        sorts(group_names(groups), pg2),
        sorts(task_names(tasks), pt1),
        sorts(task_names(tasks), pt2),
    ensures
        list_text(in_order(group_names(groups), pg1), tasks_in_order(tasks, pt1), groups.len() as int) == list_text(
            in_order(group_names(groups), pg2),
            tasks_in_order(tasks, pt2),
            groups.len() as int,
        ),
{
    let gn = group_names(groups);
    lemma_in_order_multiset(gn, pg1);
    lemma_in_order_multiset(gn, pg2);
    lemma_sorted_unique(in_order(gn, pg1), in_order(gn, pg2));
    let ts1 = tasks_in_order(tasks, pt1);
    let ts2 = tasks_in_order(tasks, pt2);
    lemma_tasks_in_order(tasks, pt1);
    lemma_tasks_in_order(tasks, pt2);
    assert forall|g: Seq<char>| #[trigger] task_lines(ts1, g) == task_lines(ts2, g) by {
        lemma_names_in_group_sorted(ts1, g);
        lemma_names_in_group_sorted(ts2, g);
        lemma_names_in_group_multiset(ts1, ts2, g);
        lemma_sorted_unique(names_in_group(ts1, g), names_in_group(ts2, g));
        lemma_task_lines(ts1, g);
        lemma_task_lines(ts2, g);
    }
    lemma_list_text_same(in_order(gn, pg1), ts1, ts2, groups.len() as int);
}

/// The listing of all the groups `gs`.
pub open spec fn listing(gs: Seq<Seq<char>>, ts: Seq<(Seq<char>, Seq<char>)>) -> Seq<char> {
    list_text(gs, ts, gs.len() as int)
}

proof fn lemma_list_text_push_prefix(gs: Seq<Seq<char>>, ts: Seq<(Seq<char>, Seq<char>)>, g: Seq<char>, k: int)
    requires
        0 <= k < gs.len(),
    ensures
        list_text(gs.push(g), ts, k) == list_text(gs, ts, k),
    decreases k,
{
    if k > 0 {
        lemma_list_text_push_prefix(gs, ts, g, k - 1);
        assert(gs.push(g)[k - 1] == gs[k - 1]);
    }
}

/// The listing is made of one block per group, in order, with exactly one
/// blank line between two blocks, whether or not a group has tasks: a group
/// alone lists as its name and a colon on a line, then the lines of its
/// tasks; one more group adds a blank line and then its block.
pub proof fn lemma_listing_blocks(gs: Seq<Seq<char>>, ts: Seq<(Seq<char>, Seq<char>)>, g: Seq<char>)
    ensures
        listing(Seq::empty(), ts) == Seq::<char>::empty(),
        listing(seq![g], ts) == g + ":\n"@ + task_lines(ts, g),
        gs.len() > 0 ==> listing(gs.push(g), ts) == listing(gs, ts) + "\n"@ + g + ":\n"@ + task_lines(ts, g),
{
    let one = seq![g];
    assert(list_text(one, ts, 0) == Seq::<char>::empty());
    assert(list_text(one, ts, 1) =~= g + ":\n"@ + task_lines(ts, g));
    if gs.len() > 0 {
        let n = gs.len() as int;
        let big = gs.push(g);
        lemma_list_text_push_prefix(gs, ts, g, n - 1);
        assert(big[n - 1] == gs[n - 1]);
        assert(big[n] == g);
        assert(list_text(big, ts, n) =~= list_text(gs, ts, n) + "\n"@);
        assert(list_text(big, ts, n + 1) =~= list_text(big, ts, n) + g + ":\n"@ + task_lines(ts, g));
    }
}

/// The lines of a group's tasks are those of each task in turn: a task of
/// the group gives its name, indented by four spaces, on a line of its own;
/// another task gives nothing.
pub proof fn lemma_task_lines_split(
    a: Seq<(Seq<char>, Seq<char>)>,
    b: Seq<(Seq<char>, Seq<char>)>,
    g: Seq<char>,
    name: Seq<char>,
    group: Seq<char>,
)
    ensures
        task_lines(a + b, g) == task_lines(a, g) + task_lines(b, g),
        task_lines(Seq::empty(), g) == Seq::<char>::empty(),
        task_lines(seq![(name, group)], g) == if group == g {
            "    "@ + name + "\n"@
        } else {
            Seq::<char>::empty()
        },
    decreases b.len(),
{
    let single = seq![(name, group)];
    assert(single.drop_last() =~= Seq::<(Seq<char>, Seq<char>)>::empty());
    assert(task_lines(single.drop_last(), g) == Seq::<char>::empty());
    assert(single.last() == (name, group));
    assert(task_lines(single, g) =~= (if group == g {
        "    "@ + name + "\n"@
    } else {
        Seq::<char>::empty()
    }));
    if b.len() == 0 {
        assert(a + b =~= a);
        assert(task_lines(a, g) + task_lines(b, g) =~= task_lines(a, g));
    } else {
        lemma_task_lines_split(a, b.drop_last(), g, name, group);
        assert((a + b).drop_last() =~= a + b.drop_last());
        assert((a + b).last() == b.last());
        assert(task_lines(a + b, g) =~= task_lines(a, g) + task_lines(b, g));
    }
}

} // verus!
