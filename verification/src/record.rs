//! Match records: one reported place of a file, the text found there, and
//! the named captures that belong to it.

use crate::position::Pos;
use vstd::prelude::*;

verus! {

/// A captured name and the text captured under it.
pub type Arg = (Seq<char>, Seq<char>);

/// `a` and `b` agree up to some offset, and there `a` has the smaller
/// character.
pub open spec fn lex_before(a: Seq<char>, b: Seq<char>) -> bool {
    exists|i: int| differs_first_at(a, b, i) && a[i] < b[i]
}

/// `i` is the first offset at which `a` and `b` hold different characters.
pub open spec fn differs_first_at(a: Seq<char>, b: Seq<char>, i: int) -> bool {
    &&& 0 <= i < a.len()
    &&& i < b.len()
    &&& a[i] != b[i]
    &&& forall|j: int| 0 <= j < i ==> a[j] == b[j]
}

/// The order in which captured names are replaced: a longer name comes
/// before a shorter one, and of two names of one length the lexicographically
/// smaller comes first. A name is thus replaced before any name that occurs
/// inside it.
pub open spec fn key_before(a: Seq<char>, b: Seq<char>) -> bool {
    a.len() > b.len() || (a.len() == b.len() && lex_before(a, b))
}

/// No name comes before itself, and of two names at most one comes before
/// the other.
pub proof fn lemma_key_before_asymmetric(a: Seq<char>, b: Seq<char>)
    requires
        key_before(a, b),
    ensures
        a != b,
        !key_before(b, a),
{
    if a.len() == b.len() {
        let i = choose|i: int| differs_first_at(a, b, i) && a[i] < b[i];
        if key_before(b, a) {
            let j = choose|j: int| differs_first_at(b, a, j) && b[j] < a[j];
            if i < j {
                assert(b[i] == a[i]);
            } else if j < i {
                assert(a[j] == b[j]);
            }
        }
    }
}

/// The order of names is transitive.
pub proof fn lemma_key_before_transitive(a: Seq<char>, b: Seq<char>, c: Seq<char>)
    requires
        key_before(a, b),
        key_before(b, c),
    ensures
        key_before(a, c),
{
    if a.len() == b.len() && b.len() == c.len() {
        let i = choose|i: int| differs_first_at(a, b, i) && a[i] < b[i];
        let j = choose|j: int| differs_first_at(b, c, j) && b[j] < c[j];
        let k = if i <= j {
            i
        } else {
            j
        };
        assert(differs_first_at(a, c, k) && a[k] < c[k]);
    }
}

/// Of two different names one comes before the other.
pub proof fn lemma_key_before_total(a: Seq<char>, b: Seq<char>)
    ensures
        a == b || key_before(a, b) || key_before(b, a),
    decreases a.len(),
{
    if a.len() == b.len() && a != b {
        lemma_first_difference(a, b, 0);
        let i = choose|i: int| differs_first_at(a, b, i);
        assert(differs_first_at(b, a, i));
    }
}

/// Two sequences of one length that agree below `from` and are not equal
/// differ first somewhere.
proof fn lemma_first_difference(a: Seq<char>, b: Seq<char>, from: int)
    requires
        a.len() == b.len(),
        a != b,
        0 <= from <= a.len(),
        forall|j: int| 0 <= j < from ==> a[j] == b[j],
    ensures
        exists|i: int| differs_first_at(a, b, i),
    decreases a.len() - from,
{
    if from == a.len() {
        assert(a =~= b);
    } else if a[from] != b[from] {
        assert(differs_first_at(a, b, from));
    } else {
        lemma_first_difference(a, b, from + 1);
    }
}

/// How one captured name stands to another in the order of replacement.
#[derive(Clone, Copy, Debug, PartialEq, Eq, Structural)]
pub enum KeyOrder {
    Before,
    Same,
    After,
}

/// How `a` stands to `b` in the order of replacement.
pub fn key_order(a: &Vec<char>, b: &Vec<char>) -> (r: KeyOrder)
    ensures
        r == KeyOrder::Before <==> key_before(a@, b@),
        r == KeyOrder::Same <==> a@ == b@,
        r == KeyOrder::After <==> key_before(b@, a@),
{
    proof {
        if key_before(a@, b@) {
            lemma_key_before_asymmetric(a@, b@);
        }
        if key_before(b@, a@) {
            lemma_key_before_asymmetric(b@, a@);
        }
    }
    if a.len() > b.len() {
        return KeyOrder::Before;
    }
    if a.len() < b.len() {
        return KeyOrder::After;
    }
    let mut i: usize = 0;
    while i < a.len()
        invariant
            a.len() == b.len(),
            i <= a.len(),
            forall|j: int| 0 <= j < i ==> a@[j] == b@[j],
        decreases a.len() - i,
    {
        if a[i] != b[i] {
            if a[i] < b[i] {
                assert(differs_first_at(a@, b@, i as int));
                return KeyOrder::Before;
            } else {
                assert(differs_first_at(b@, a@, i as int));
                return KeyOrder::After;
            }
        }
        i += 1;
    }
    assert(a@ =~= b@);
    KeyOrder::Same
}

/// Every name comes before the names behind it, so none occurs twice.
pub open spec fn keys_sorted(args: Seq<Arg>) -> bool {
    forall|i: int, j: int| 0 <= i < j < args.len() ==> key_before(args[i].0, args[j].0)
}

/// `args` with `value` captured under `key`: in place of what was captured
/// under that name before, or else at the place that the order of replacement
/// gives the name.
pub open spec fn insert_arg(args: Seq<Arg>, key: Seq<char>, value: Seq<char>) -> Seq<Arg>
    decreases args.len(),
{
    if args.len() == 0 {
        seq![(key, value)]
    } else if args[0].0 == key {
        seq![(key, value)] + args.drop_first()
    } else if key_before(key, args[0].0) {
        seq![(key, value)] + args
    } else {
        seq![args[0]] + insert_arg(args.drop_first(), key, value)
    }
}

/// Inserting keeps the names in order; the names are then those that were
/// there and the one inserted.
pub proof fn lemma_insert_arg_sorted(args: Seq<Arg>, key: Seq<char>, value: Seq<char>)
    requires
        keys_sorted(args),
    ensures
        keys_sorted(insert_arg(args, key, value)),
        forall|i: int|
            0 <= i < insert_arg(args, key, value).len() ==> {
                let k = #[trigger] insert_arg(args, key, value)[i].0;
                k == key || exists|j: int| 0 <= j < args.len() && args[j].0 == k
            },
    decreases args.len(),
{
    let r = insert_arg(args, key, value);
    if args.len() == 0 {
    } else if args[0].0 == key {
        assert forall|i: int| 0 <= i < r.len() implies {
            let k = #[trigger] r[i].0;
            k == key || exists|j: int| 0 <= j < args.len() && args[j].0 == k
        } by {
            if i > 0 {
                assert(r[i] == args[i]);
            }
        }
        assert forall|i: int, j: int| 0 <= i < j < r.len() implies key_before(r[i].0, r[j].0) by {
            assert(r[i].0 == args[i].0);
            assert(r[j].0 == args[j].0);
        }
    } else if key_before(key, args[0].0) {
        assert forall|i: int| 0 <= i < r.len() implies {
            let k = #[trigger] r[i].0;
            k == key || exists|j: int| 0 <= j < args.len() && args[j].0 == k
        } by {
            if i > 0 {
                assert(r[i] == args[i - 1]);
            }
        }
        assert forall|i: int, j: int| 0 <= i < j < r.len() implies key_before(r[i].0, r[j].0) by {
            assert(r[j] == args[j - 1]);
            if i == 0 {
                if j > 1 {
                    lemma_key_before_transitive(key, args[0].0, args[j - 1].0);
                }
            } else {
                assert(r[i] == args[i - 1]);
            }
        }
    } else {
        let rest = args.drop_first();
        let tail = insert_arg(rest, key, value);
        assert(keys_sorted(rest)) by {
            assert forall|i: int, j: int| 0 <= i < j < rest.len() implies key_before(
                rest[i].0,
                rest[j].0,
            ) by {
                assert(rest[i] == args[i + 1]);
                assert(rest[j] == args[j + 1]);
            }
        }
        lemma_insert_arg_sorted(rest, key, value);
        lemma_key_before_total(key, args[0].0);
        assert forall|i: int| 0 <= i < r.len() implies {
            let k = #[trigger] r[i].0;
            k == key || exists|j: int| 0 <= j < args.len() && args[j].0 == k
        } by {
            if i > 0 {
                assert(r[i] == tail[i - 1]);
                let k = tail[i - 1].0;
                if k != key {
                    let j = choose|j: int| 0 <= j < rest.len() && rest[j].0 == k;
                    assert(args[j + 1].0 == k);
                }
            }
        }
        assert forall|i: int, j: int| 0 <= i < j < r.len() implies key_before(r[i].0, r[j].0) by {
            assert(r[j] == tail[j - 1]);
            if i == 0 {
                let k = tail[j - 1].0;
                if k != key {
                    let m = choose|m: int| 0 <= m < rest.len() && rest[m].0 == k;
                    assert(args[m + 1].0 == k);
                }
            } else {
                assert(r[i] == tail[i - 1]);
            }
        }
    }
}

/// What is captured after an insertion: the new capture, and what was
/// captured before under other names.
pub proof fn lemma_insert_arg_holds(args: Seq<Arg>, key: Seq<char>, value: Seq<char>, x: Arg)
    requires
        keys_sorted(args),
    ensures
        insert_arg(args, key, value).contains(x) <==> x == (key, value) || (args.contains(x)
            && x.0 != key),
    decreases args.len(),
{
    let r = insert_arg(args, key, value);
    if args.len() == 0 {
        assert(r[0] == (key, value));
        if args.contains(x) {
            let j = choose|j: int| 0 <= j < args.len() && args[j] == x;
        }
        if r.contains(x) {
            let i = choose|i: int| 0 <= i < r.len() && r[i] == x;
        }
    } else if args[0].0 == key {
        let rest = args.drop_first();
        if r.contains(x) {
            let i = choose|i: int| 0 <= i < r.len() && r[i] == x;
            if i > 0 {
                assert(r[i] == args[i]);
                lemma_key_before_asymmetric(args[0].0, args[i].0);
            }
        }
        if x == (key, value) {
            assert(r[0] == x);
        }
        if args.contains(x) && x.0 != key {
            let j = choose|j: int| 0 <= j < args.len() && args[j] == x;
            assert(r[j] == x);
        }
    } else if key_before(key, args[0].0) {
        if r.contains(x) {
            let i = choose|i: int| 0 <= i < r.len() && r[i] == x;
            if i > 0 {
                assert(r[i] == args[i - 1]);
                if i > 1 {
                    lemma_key_before_transitive(key, args[0].0, args[i - 1].0);
                }
                lemma_key_before_asymmetric(key, args[i - 1].0);
            }
        }
        if x == (key, value) {
            assert(r[0] == x);
        }
        if args.contains(x) && x.0 != key {
            let j = choose|j: int| 0 <= j < args.len() && args[j] == x;
            assert(r[j + 1] == x);
        }
    } else {
        let rest = args.drop_first();
        let tail = insert_arg(rest, key, value);
        assert(keys_sorted(rest)) by {
            assert forall|i: int, j: int| 0 <= i < j < rest.len() implies key_before(
                rest[i].0,
                rest[j].0,
            ) by {
                assert(rest[i] == args[i + 1]);
                assert(rest[j] == args[j + 1]);
            }
        }
        lemma_insert_arg_holds(rest, key, value, x);
        if r.contains(x) {
            let i = choose|i: int| 0 <= i < r.len() && r[i] == x;
            if i == 0 {
                assert(args[0] == x);
            } else {
                assert(r[i] == tail[i - 1]);
                assert(tail.contains(x));
                if x != (key, value) {
                    let j = choose|j: int| 0 <= j < rest.len() && rest[j] == x;
                    assert(args[j + 1] == x);
                }
            }
        }
        if x == (key, value) {
            let i = choose|i: int| 0 <= i < tail.len() && tail[i] == x;
            assert(r[i + 1] == x);
        }
        if args.contains(x) && x.0 != key {
            let j = choose|j: int| 0 <= j < args.len() && args[j] == x;
            if j == 0 {
                assert(r[0] == x);
            } else {
                assert(rest[j - 1] == x);
                assert(rest.contains(x));
                let i = choose|i: int| 0 <= i < tail.len() && tail[i] == x;
                assert(r[i + 1] == x);
            }
        }
    }
}

/// Captures in order that hold the same are the same: the order of
/// replacement leaves no choice.
pub proof fn lemma_sorted_args_equal(a: Seq<Arg>, b: Seq<Arg>)
    requires
        keys_sorted(a),
        keys_sorted(b),
        forall|x: Arg| a.contains(x) <==> b.contains(x),
    ensures
        a == b,
    decreases a.len(),
{
    if a.len() == 0 {
        if b.len() > 0 {
            assert(b.contains(b[0]));
        }
        assert(a =~= b);
    } else {
        assert(a.contains(a[0]));
        let j = choose|j: int| 0 <= j < b.len() && b[j] == a[0];
        assert(b.contains(b[0]));
        let i = choose|i: int| 0 <= i < a.len() && a[i] == b[0];
        if j > 0 && i > 0 {
            lemma_key_before_asymmetric(b[0].0, b[j].0);
        }
        if j > 0 && i == 0 {
            lemma_key_before_asymmetric(b[0].0, b[j].0);
        }
        if j == 0 && i > 0 {
            lemma_key_before_asymmetric(a[0].0, a[i].0);
        }
        assert(a[0] == b[0]);
        let ra = a.drop_first();
        let rb = b.drop_first();
        assert forall|p: int, q: int| 0 <= p < q < ra.len() implies key_before(
            ra[p].0,
            ra[q].0,
        ) by {
            assert(ra[p] == a[p + 1]);
            assert(ra[q] == a[q + 1]);
        }
        assert forall|p: int, q: int| 0 <= p < q < rb.len() implies key_before(
            rb[p].0,
            rb[q].0,
        ) by {
            assert(rb[p] == b[p + 1]);
            assert(rb[q] == b[q + 1]);
        }
        assert forall|x: Arg| ra.contains(x) <==> rb.contains(x) by {
            if ra.contains(x) {
                let p = choose|p: int| 0 <= p < ra.len() && ra[p] == x;
                assert(a[p + 1] == x);
                assert(a.contains(x));
                lemma_key_before_asymmetric(a[0].0, a[p + 1].0);
                let q = choose|q: int| 0 <= q < b.len() && b[q] == x;
                assert(q > 0);
                assert(rb[q - 1] == x);
            }
            if rb.contains(x) {
                let p = choose|p: int| 0 <= p < rb.len() && rb[p] == x;
                assert(b[p + 1] == x);
                assert(b.contains(x));
                lemma_key_before_asymmetric(b[0].0, b[p + 1].0);
                let q = choose|q: int| 0 <= q < a.len() && a[q] == x;
                assert(q > 0);
                assert(ra[q - 1] == x);
            }
        }
        lemma_sorted_args_equal(ra, rb);
        assert(a =~= seq![a[0]] + ra);
        assert(b =~= seq![b[0]] + rb);
    }
}

/// Captures under different names may be inserted in either order: what a
/// record holds, and so what its advice expands to, does not depend on the
/// order in which its captures came.
pub proof fn lemma_insert_arg_commutes(
    args: Seq<Arg>,
    key: Seq<char>,
    value: Seq<char>,
    other_key: Seq<char>,
    other_value: Seq<char>,
)
    requires
        keys_sorted(args),
        key != other_key,
    ensures
        insert_arg(insert_arg(args, key, value), other_key, other_value) == insert_arg(
            insert_arg(args, other_key, other_value),
            key,
            value,
        ),
{
    let a1 = insert_arg(args, key, value);
    let a2 = insert_arg(args, other_key, other_value);
    let l = insert_arg(a1, other_key, other_value);
    let r = insert_arg(a2, key, value);
    lemma_insert_arg_sorted(args, key, value);
    lemma_insert_arg_sorted(args, other_key, other_value);
    lemma_insert_arg_sorted(a1, other_key, other_value);
    lemma_insert_arg_sorted(a2, key, value);
    assert forall|x: Arg| l.contains(x) <==> r.contains(x) by {
        lemma_insert_arg_holds(args, key, value, x);
        lemma_insert_arg_holds(args, other_key, other_value, x);
        lemma_insert_arg_holds(a1, other_key, other_value, x);
        lemma_insert_arg_holds(a2, key, value, x);
    }
    lemma_sorted_args_equal(l, r);
}

/// A capture under a name that is there already takes the place of the one
/// before it: the earlier capture leaves no trace.
pub proof fn lemma_insert_arg_overrides(
    args: Seq<Arg>,
    key: Seq<char>,
    value: Seq<char>,
    later: Seq<char>,
)
    requires
        keys_sorted(args),
    ensures
        insert_arg(insert_arg(args, key, value), key, later) == insert_arg(args, key, later),
{
    let a1 = insert_arg(args, key, value);
    let l = insert_arg(a1, key, later);
    let r = insert_arg(args, key, later);
    lemma_insert_arg_sorted(args, key, value);
    lemma_insert_arg_sorted(args, key, later);
    lemma_insert_arg_sorted(a1, key, later);
    assert forall|x: Arg| l.contains(x) <==> r.contains(x) by {
        lemma_insert_arg_holds(args, key, value, x);
        lemma_insert_arg_holds(args, key, later, x);
        lemma_insert_arg_holds(a1, key, later, x);
    }
    lemma_sorted_args_equal(l, r);
}

/// The names and texts that the pairs of `v` hold.
pub open spec fn args_of(v: Seq<(String, String)>) -> Seq<Arg> {
    v.map_values(|p: (String, String)| (p.0@, p.1@))
}

/// What a match record holds.
pub struct FoundView {
    /// The file in which the match was found.
    pub file: Seq<char>,
    /// The text that was found at the match.
    pub src: Seq<char>,
    /// Where the match starts.
    pub start: Pos,
    /// Where the match ends: the place behind its last character.
    pub end: Pos,
    /// The named captures, in the order in which they are replaced.
    pub args: Seq<Arg>,
}

impl FoundView {
    /// The match does not end before it starts, and its captures stand in
    /// the order of replacement.
    pub open spec fn well_formed(self) -> bool {
        self.start@.not_after(self.end@) && keys_sorted(self.args)
    }
}

/// One reported match: a place of a file, the text found there, and the
/// named captures that belong to it.
#[derive(Debug)]
pub struct Found {
    file: String,
    src: String,
    start: Pos,
    end: Pos,
    args: Vec<(String, String)>,
}

impl View for Found {
    type V = FoundView;

    closed spec fn view(&self) -> FoundView {
        FoundView {
            file: self.file@,
            src: self.src@,
            start: self.start,
            end: self.end,
            args: args_of(self.args@),
        }
    }
}

impl Found {
    #[verifier::type_invariant]
    spec fn valid(self) -> bool {
        self@.well_formed()
    }

    /// A record without captures, unless `end` comes before `start`.
    pub fn new(file: String, src: String, start: Pos, end: Pos) -> (r: Option<Found>)
        ensures
            match r {
                Some(f) => start@.not_after(end@) && f@ == (FoundView {
                    file: file@,
                    src: src@,
                    start,
                    end,
                    args: Seq::empty(),
                }),
                None => end@.before(start@),
            },
    {
        if end.is_before(&start) {
            None
        } else {
            let f = Found { file, src, start, end, args: Vec::new() };
            assert(f@.args =~= Seq::empty());
            Some(f)
        }
    }

    /// The file in which the match was found.
    pub fn file(&self) -> (s: &str)
        ensures
            s@ == self@.file,
    {
        self.file.as_str()
    }

    /// The text that was found at the match.
    pub fn src(&self) -> (s: &str)
        ensures
            s@ == self@.src,
    {
        self.src.as_str()
    }

    /// Where the match starts; never behind its end.
    pub fn start(&self) -> (p: Pos)
        ensures
            p == self@.start,
            self@.well_formed(),
    {
        proof {
            use_type_invariant(self);
        }
        self.start
    }

    /// Where the match ends; never before its start.
    pub fn end(&self) -> (p: Pos)
        ensures
            p == self@.end,
            self@.well_formed(),
    {
        proof {
            use_type_invariant(self);
        }
        self.end
    }

    /// The named captures, in the order in which they are replaced.
    pub fn args(&self) -> (a: &Vec<(String, String)>)
        ensures
            args_of(a@) == self@.args,
            keys_sorted(self@.args),
    {
        proof {
            use_type_invariant(self);
        }
        &self.args
    }

    /// Captures `value` under `key`, in place of what was captured under that
    /// name before.
    pub fn insert_arg(&mut self, key: String, value: String)
        ensures
            final(self)@ == (FoundView {
                args: insert_arg(old(self)@.args, key@, value@),
                ..old(self)@
            }),
    {
        proof {
            use_type_invariant(&*self);
        }
        let name = crate::text::chars_of(key.as_str());
        let mut args: Vec<(String, String)> = Vec::new();
        std::mem::swap(&mut args, &mut self.args);
        let ghost before = args_of(args@);
        let mut i: usize = 0;
        let mut found: bool = false;
        while i < args.len()
            invariant_except_break
                !found,
            invariant
                i <= args.len(),
                args_of(args@) == before,
                forall|j: int| 0 <= j < i ==> key_before(before[j].0, key@),
                name@ == key@,
            ensures
                i <= args.len(),
                args_of(args@) == before,
                forall|j: int| 0 <= j < i ==> key_before(before[j].0, key@),
                found ==> i < args.len() && before[i as int].0 == key@,
                !found && i < args.len() ==> key_before(key@, before[i as int].0),
            decreases args.len() - i,
        {
            let other = crate::text::chars_of(args[i].0.as_str());
            match key_order(&other, &name) {
                KeyOrder::Before => {
                    i += 1;
                },
                KeyOrder::Same => {
                    found = true;
                    break ;
                },
                KeyOrder::After => {
                    break ;
                },
            }
        }
        proof {
            lemma_insert_arg_at(before, key@, value@, i as int);
            lemma_insert_arg_sorted(before, key@, value@);
        }
        if found {
            args.set(i, (key, value));
            assert(args_of(args@) =~= insert_arg(before, key@, value@));
        } else {
            args.insert(i, (key, value));
            assert(args_of(args@) =~= insert_arg(before, key@, value@));
        }
        self.args = args;
    }
}

/// Where the entries of `args` below `i` come before `key`, inserting leaves
/// them alone and goes by the entry at `i`.
proof fn lemma_insert_arg_at(args: Seq<Arg>, key: Seq<char>, value: Seq<char>, i: int)
    requires
        0 <= i <= args.len(),
        forall|j: int| 0 <= j < i ==> key_before(args[j].0, key),
        i < args.len() ==> args[i].0 == key || key_before(key, args[i].0),
    ensures
        insert_arg(args, key, value) == if i < args.len() && args[i].0 == key {
            args.update(i, (key, value))
        } else {
            args.insert(i, (key, value))
        },
    decreases i,
{
    let goal = if i < args.len() && args[i].0 == key {
        args.update(i, (key, value))
    } else {
        args.insert(i, (key, value))
    };
    if i == 0 {
        assert(insert_arg(args, key, value) =~= goal);
    } else {
        lemma_key_before_asymmetric(args[0].0, key);
        let rest = args.drop_first();
        assert forall|j: int| 0 <= j < i - 1 implies key_before(rest[j].0, key) by {
            assert(rest[j] == args[j + 1]);
        }
        lemma_insert_arg_at(rest, key, value, i - 1);
        assert(insert_arg(args, key, value) =~= goal);
    }
}

impl Clone for Found {
    fn clone(&self) -> (r: Self)
        ensures
            r@ == self@,
    {
        proof {
            use_type_invariant(self);
        }
        let mut args: Vec<(String, String)> = Vec::new();
        let mut i: usize = 0;
        while i < self.args.len()
            invariant
                i <= self.args.len(),
                args_of(args@) == args_of(self.args@).take(i as int),
            decreases self.args.len() - i,
        {
            let ghost before = args_of(args@);
            args.push((self.args[i].0.clone(), self.args[i].1.clone()));
            assert(args_of(args@) =~= before.push(args_of(self.args@)[i as int]));
            i += 1;
        }
        assert(args_of(args@) =~= args_of(self.args@));
        Found {
            file: self.file.clone(),
            src: self.src.clone(),
            start: self.start,
            end: self.end,
            args,
        }
    }
}

/// No record starts before a record behind it: the records are in the
/// order in which they are woven, the last place of the file first.
pub open spec fn starts_descending(s: Seq<FoundView>) -> bool {
    forall|i: int, j: int| 0 <= i < j < s.len() ==> s[j].start@.not_after(s[i].start@)
}

/// `s` with `f` put before the first record that starts before it, and so
/// behind the records that start where it starts.
pub open spec fn insert_found(s: Seq<FoundView>, f: FoundView) -> Seq<FoundView>
    decreases s.len(),
{
    if s.len() == 0 {
        seq![f]
    } else if s[0].start@.before(f.start@) {
        seq![f] + s
    } else {
        seq![s[0]] + insert_found(s.drop_first(), f)
    }
}

/// Where no record of `s` below `i` starts before `f`, and the one at `i`
/// does, `f` is put at `i`.
pub proof fn lemma_insert_found_at(s: Seq<FoundView>, f: FoundView, i: int)
    requires
        0 <= i <= s.len(),
        forall|j: int| 0 <= j < i ==> !s[j].start@.before(f.start@),
        i < s.len() ==> s[i].start@.before(f.start@),
    ensures
        insert_found(s, f) == s.insert(i, f),
    decreases i,
{
    if i == 0 {
        assert(insert_found(s, f) =~= s.insert(i, f));
    } else {
        let rest = s.drop_first();
        assert forall|j: int| 0 <= j < i - 1 implies !rest[j].start@.before(f.start@) by {
            assert(rest[j] == s[j + 1]);
        }
        lemma_insert_found_at(rest, f, i - 1);
        assert(insert_found(s, f) =~= s.insert(i, f));
    }
}

/// Inserting keeps the records in descending order of their starts.
pub proof fn lemma_insert_found_descending(s: Seq<FoundView>, f: FoundView)
    requires
        starts_descending(s),
    ensures
        starts_descending(insert_found(s, f)),
        insert_found(s, f).len() == s.len() + 1,
{
    let i = first_starting_before(s, f, 0);
    lemma_first_starting_before(s, f, 0);
    lemma_insert_found_at(s, f, i);
    let r = s.insert(i, f);
    assert forall|a: int, b: int| 0 <= a < b < r.len() implies r[b].start@.not_after(
        r[a].start@,
    ) by {
        if b == i {
            assert(r[a] == s[a]);
        } else if a == i {
            assert(r[b] == s[b - 1]);
            if b - 1 > i {
                assert(s[b - 1].start@.not_after(s[i].start@));
            }
        } else {
            let a0 = if a < i {
                a
            } else {
                a - 1
            };
            let b0 = if b < i {
                b
            } else {
                b - 1
            };
            assert(r[a] == s[a0]);
            assert(r[b] == s[b0]);
        }
    }
}

/// The offset of the first record of `s`, not below `from`, that starts
/// before `f`; the length of `s` where there is none.
spec fn first_starting_before(s: Seq<FoundView>, f: FoundView, from: int) -> int
    decreases s.len() - from,
{
    if from < 0 || from >= s.len() {
        s.len() as int
    } else if s[from].start@.before(f.start@) {
        from
    } else {
        first_starting_before(s, f, from + 1)
    }
}

/// `first_starting_before` is what it is called.
proof fn lemma_first_starting_before(s: Seq<FoundView>, f: FoundView, from: int)
    requires
        0 <= from <= s.len(),
    ensures
        from <= first_starting_before(s, f, from) <= s.len(),
        forall|j: int|
            from <= j < first_starting_before(s, f, from) ==> !s[j].start@.before(f.start@),
        first_starting_before(s, f, from) < s.len() ==> s[first_starting_before(
            s,
            f,
            from,
        )].start@.before(f.start@),
    decreases s.len() - from,
{
    if from < s.len() && !s[from].start@.before(f.start@) {
        lemma_first_starting_before(s, f, from + 1);
    }
}

/// The records that the elements of `v` hold.
pub open spec fn founds_of(v: Seq<Found>) -> Seq<FoundView> {
    v.map_values(|f: Found| f@)
}

/// The matches of one file, in the order in which they are woven: no record
/// starts before a record behind it.
#[derive(Debug)]
pub struct MatchSet {
    items: Vec<Found>,
}

impl View for MatchSet {
    type V = Seq<FoundView>;

    closed spec fn view(&self) -> Seq<FoundView> {
        founds_of(self.items@)
    }
}

impl MatchSet {
    #[verifier::type_invariant]
    spec fn valid(self) -> bool {
        starts_descending(self@)
    }

    /// The set without a record.
    pub fn new() -> (r: MatchSet)
        ensures
            r@ == Seq::<FoundView>::empty(),
    {
        let r = MatchSet { items: Vec::new() };
        assert(r@ =~= Seq::<FoundView>::empty());
        r
    }

    /// The number of records.
    pub fn len(&self) -> (n: usize)
        ensures
            n == self@.len(),
    {
        self.items.len()
    }

    /// Whether the set is without a record.
    pub fn is_empty(&self) -> (b: bool)
        ensures
            b == (self@.len() == 0),
    {
        self.items.len() == 0
    }

    /// The records, in the order in which they are woven: none starts before
    /// a record behind it.
    pub fn records(&self) -> (r: &Vec<Found>)
        ensures
            founds_of(r@) == self@,
            starts_descending(self@),
    {
        proof {
            use_type_invariant(self);
        }
        &self.items
    }

    /// Adds `f`: before the first record that starts before it.
    pub fn push(&mut self, f: Found)
        ensures
            final(self)@ == insert_found(old(self)@, f@),
    {
        proof {
            use_type_invariant(&*self);
        }
        let mut items: Vec<Found> = Vec::new();
        std::mem::swap(&mut items, &mut self.items);
        let ghost before = founds_of(items@);
        let start = f.start();
        let mut i: usize = 0;
        while i < items.len() && !items[i].start().is_before(&start)
            invariant
                i <= items.len(),
                founds_of(items@) == before,
                start == f@.start,
                forall|j: int| 0 <= j < i ==> !before[j].start@.before(f@.start@),
            decreases items.len() - i,
        {
            i += 1;
        }
        proof {
            lemma_insert_found_at(before, f@, i as int);
            lemma_insert_found_descending(before, f@);
        }
        items.insert(i, f);
        assert(founds_of(items@) =~= before.insert(i as int, f@));
        self.items = items;
    }
}

impl Clone for MatchSet {
    fn clone(&self) -> (r: Self)
        ensures
            r@ == self@,
    {
        proof {
            use_type_invariant(self);
        }
        let mut items: Vec<Found> = Vec::new();
        let mut i: usize = 0;
        while i < self.items.len()
            invariant
                i <= self.items.len(),
                founds_of(items@) == founds_of(self.items@).take(i as int),
            decreases self.items.len() - i,
        {
            let ghost before = founds_of(items@);
            items.push(self.items[i].clone());
            assert(founds_of(items@) =~= before.push(founds_of(self.items@)[i as int]));
            i += 1;
        }
        assert(founds_of(items@) =~= founds_of(self.items@));
        MatchSet { items }
    }
}

} // verus!
