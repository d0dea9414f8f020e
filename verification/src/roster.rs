//! Values by name, in the order of the names.

use vstd::prelude::*;

use crate::text::{chars_of, same_text};

verus! {

/// From position `i` on, `a` comes before `b` in the order of their characters.
pub open spec fn precedes_from(a: Seq<char>, b: Seq<char>, i: int) -> bool
    decreases b.len() - i,
{
    if i < 0 || i >= b.len() {
        false
    } else if i >= a.len() {
        true
    } else if a[i] != b[i] {
        a[i] < b[i]
    } else {
        precedes_from(a, b, i + 1)
    }
}

pub open spec fn precedes(a: Seq<char>, b: Seq<char>) -> bool {
    precedes_from(a, b, 0)
}

fn comes_before(a: &str, b: &str) -> (res: bool)
    ensures
        res == precedes(a@, b@),
{
    let first: Vec<char> = chars_of(a);
    let second: Vec<char> = chars_of(b);
    let mut i: usize = 0;
    while i < second.len()
        invariant
            i <= second@.len(),
            first@ == a@,
            second@ == b@,
            precedes(a@, b@) == precedes_from(a@, b@, i as int),
        decreases second@.len() - i,
    {
        if i >= first.len() {
            return true;
        }
        let (x, y): (char, char) = (first[i], second[i]);
        if x != y {
            return x < y;
        }
        i = i + 1;
    }
    false
}

proof fn lemma_no_name_precedes_itself(a: Seq<char>, i: int)
    requires
        0 <= i,
    ensures
        !precedes_from(a, a, i),
    decreases a.len() - i,
{
    if i < a.len() {
        lemma_no_name_precedes_itself(a, i + 1);
    }
}

proof fn lemma_precedes_is_transitive(a: Seq<char>, b: Seq<char>, c: Seq<char>, i: int)
    requires
        0 <= i,
        precedes_from(a, b, i),
        precedes_from(b, c, i),
    ensures
        precedes_from(a, c, i),
    decreases c.len() - i,
{
    if i < a.len() && i < b.len() && i < c.len() && a[i] == b[i] && b[i] == c[i] {
        lemma_precedes_is_transitive(a, b, c, i + 1);
    }
}

proof fn lemma_names_compare(a: Seq<char>, b: Seq<char>, i: int)
    requires
        0 <= i,
        i <= a.len(),
        i <= b.len(),
        forall|k: int| 0 <= k < i ==> a[k] == b[k],
    ensures
        a == b || precedes_from(a, b, i) || precedes_from(b, a, i),
    decreases a.len() - i,
{
    if i < a.len() && i < b.len() && a[i] == b[i] {
        lemma_names_compare(a, b, i + 1);
    } else if i == a.len() && i == b.len() {
        assert(a =~= b);
    }
}

/// Values by name. No name occurs twice.
#[derive(Debug)]
pub struct Roster<T> {
    entries: Vec<(String, T)>,
}

impl<T> View for Roster<T> {
    type V = Seq<(Seq<char>, T)>;

    closed spec fn view(&self) -> Seq<(Seq<char>, T)> {
        Seq::new(self.entries@.len(), |i: int| (self.entries@[i].0@, self.entries@[i].1))
    }
}

/// The names rise.
pub open spec fn in_order<T>(entries: Seq<(Seq<char>, T)>) -> bool {
    forall|i: int, j: int|
        0 <= i < j < entries.len() ==> precedes(#[trigger] entries[i].0, #[trigger] entries[j].0)
}

/// The first position, from `from` on, whose name does not come before `name`.
pub open spec fn rank<T>(entries: Seq<(Seq<char>, T)>, name: Seq<char>, from: int) -> int
    decreases entries.len() - from,
{
    if from < 0 || from >= entries.len() || !precedes(entries[from].0, name) {
        from
    } else {
        rank(entries, name, from + 1)
    }
}

/// `entries` with `value` under `name`, in place of what stood there.
pub open spec fn with_entry<T>(entries: Seq<(Seq<char>, T)>, name: Seq<char>, value: T) -> Seq<
    (Seq<char>, T),
> {
    let at = rank(entries, name, 0);
    if at < entries.len() && entries[at].0 == name {
        entries.update(at, (name, value))
    } else {
        entries.insert(at, (name, value))
    }
}

/// The position of `name`, from `from` on.
pub open spec fn position<T>(entries: Seq<(Seq<char>, T)>, name: Seq<char>, from: int) -> Option<
    int,
>
    decreases entries.len() - from,
{
    if from < 0 || from >= entries.len() {
        None
    } else if entries[from].0 == name {
        Some(from)
    } else {
        position(entries, name, from + 1)
    }
}

/// What stands under `name`.
pub open spec fn entry<T>(entries: Seq<(Seq<char>, T)>, name: Seq<char>) -> Option<T> {
    match position(entries, name, 0) {
        Some(i) => Some(entries[i].1),
        None => None,
    }
}

proof fn lemma_rank<T>(entries: Seq<(Seq<char>, T)>, name: Seq<char>, from: int)
    requires
        0 <= from <= entries.len(),
    ensures
        from <= rank(entries, name, from) <= entries.len(),
        forall|i: int|
            from <= i < rank(entries, name, from) ==> precedes(#[trigger] entries[i].0, name),
        rank(entries, name, from) < entries.len() ==> !precedes(
            entries[rank(entries, name, from)].0,
            name,
        ),
    decreases entries.len() - from,
{
    if from < entries.len() && precedes(entries[from].0, name) {
        lemma_rank(entries, name, from + 1);
    }
}

proof fn lemma_position<T>(entries: Seq<(Seq<char>, T)>, name: Seq<char>, from: int)
    requires
        0 <= from <= entries.len(),
    ensures
        match position(entries, name, from) {
            Some(i) => from <= i < entries.len() && entries[i].0 == name,
            None => forall|i: int| from <= i < entries.len() ==> (#[trigger] entries[i]).0 != name,
        },
    decreases entries.len() - from,
{
    if from < entries.len() && entries[from].0 != name {
        lemma_position(entries, name, from + 1);
    }
}

/// Putting a value under a name keeps the names in order.
pub proof fn law_names_stay_in_order<T>(entries: Seq<(Seq<char>, T)>, name: Seq<char>, value: T)
    requires
        in_order(entries),
    ensures
        in_order(with_entry(entries, name, value)),
{
    let at = rank(entries, name, 0);
    let now = with_entry(entries, name, value);
    lemma_rank(entries, name, 0);
    if at < entries.len() && entries[at].0 == name {
        assert forall|i: int, j: int| 0 <= i < j < now.len() implies precedes(
            #[trigger] now[i].0,
            #[trigger] now[j].0,
        ) by {
            assert(now[i].0 == entries[i].0 && now[j].0 == entries[j].0);
        }
    } else {
        assert forall|j: int| at <= j < entries.len() implies precedes(
            name,
            #[trigger] entries[j].0,
        ) by {
            lemma_names_compare(entries[at].0, name, 0);
            if at < j {
                lemma_precedes_is_transitive(name, entries[at].0, entries[j].0, 0);
            }
        }
        assert forall|i: int, j: int| 0 <= i < j < now.len() implies precedes(
            #[trigger] now[i].0,
            #[trigger] now[j].0,
        ) by {
            if i < at {
                assert(now[i] == entries[i]);
            } else if i > at {
                assert(now[i] == entries[i - 1]);
            }
            if j < at {
                assert(now[j] == entries[j]);
            } else if j > at {
                assert(now[j] == entries[j - 1]);
            }
        }
    }
}

/// What was put under a name is found there, and nothing changes under any
/// other.
pub proof fn law_entries_are_found_again<T>(
    entries: Seq<(Seq<char>, T)>,
    name: Seq<char>,
    value: T,
    other: Seq<char>,
)
    requires
        in_order(entries),
    ensures
        entry(with_entry(entries, name, value), other) == if other == name {
            Some(value)
        } else {
            entry(entries, other)
        },
{
    let at = rank(entries, name, 0);
    let now = with_entry(entries, name, value);
    lemma_rank(entries, name, 0);
    law_names_stay_in_order(entries, name, value);
    lemma_position(entries, other, 0);
    lemma_position(now, other, 0);
    assert(now[at] == (name, value));
    let replaced = at < entries.len() && entries[at].0 == name;
    if other == name {
        let found = position(now, other, 0);
        assert(now[at].0 == other);
        assert(found is Some);
        lemma_one_position(now, found->0, at);
    } else {
        match position(entries, other, 0) {
            Some(i) => {
                let moved = if replaced || i < at {
                    i
                } else {
                    i + 1
                };
                assert(now[moved] == entries[i]);
                assert(position(now, other, 0) is Some);
                lemma_one_position(now, position(now, other, 0)->0, moved);
            },
            None => {
                if position(now, other, 0) is Some {
                    let k = position(now, other, 0)->0;
                    assert(k != at);
                    let from = if replaced || k < at {
                        k
                    } else {
                        k - 1
                    };
                    assert(now[k] == entries[from]);
                }
            },
        }
    }
}

proof fn lemma_one_position<T>(entries: Seq<(Seq<char>, T)>, i: int, j: int)
    requires
        in_order(entries),
        0 <= i < entries.len(),
        0 <= j < entries.len(),
        entries[i].0 == entries[j].0,
    ensures
        i == j,
{
    lemma_no_name_precedes_itself(entries[i].0, 0);
    if i < j {
        assert(precedes(entries[i].0, entries[j].0));
    } else if j < i {
        assert(precedes(entries[j].0, entries[i].0));
    }
}

/// Both hold the same names.
pub open spec fn same_names<A, B>(a: Seq<(Seq<char>, A)>, b: Seq<(Seq<char>, B)>) -> bool {
    &&& a.len() == b.len()
    &&& forall|i: int|
        #![trigger a[i]]
        #![trigger b[i]]
        0 <= i < a.len() ==> a[i].0 == b[i].0
}

pub proof fn lemma_same_rank<A, B>(
    a: Seq<(Seq<char>, A)>,
    b: Seq<(Seq<char>, B)>,
    name: Seq<char>,
    from: int,
)
    requires
        same_names(a, b),
        0 <= from <= a.len(),
    ensures
        rank(a, name, from) == rank(b, name, from),
        from <= rank(a, name, from) <= a.len(),
    decreases a.len() - from,
{
    if from < a.len() {
        assert(a[from].0 == b[from].0);
        if precedes(a[from].0, name) {
            lemma_same_rank(a, b, name, from + 1);
        }
    }
}

pub proof fn lemma_same_position<A, B>(
    a: Seq<(Seq<char>, A)>,
    b: Seq<(Seq<char>, B)>,
    name: Seq<char>,
    from: int,
)
    requires
        same_names(a, b),
        0 <= from <= a.len(),
    ensures
        position(a, name, from) == position(b, name, from),
        position(a, name, from) matches Some(i) ==> from <= i < a.len() && a[i].0 == name,
    decreases a.len() - from,
{
    if from < a.len() {
        assert(a[from].0 == b[from].0);
        if a[from].0 != name {
            lemma_same_position(a, b, name, from + 1);
        }
    }
}

impl<T> Roster<T> {
    pub fn new() -> (res: Self)
        ensures
            res@ == Seq::<(Seq<char>, T)>::empty(),
            in_order(res@),
    {
        let res = Roster { entries: Vec::new() };
        assert(res@ =~= Seq::<(Seq<char>, T)>::empty());
        res
    }

    pub fn len(&self) -> (res: usize)
        ensures
            res == self@.len(),
    {
        self.entries.len()
    }

    pub fn name(&self, i: usize) -> (res: &str)
        requires
            i < self@.len(),
        ensures
            res@ == self@[i as int].0,
    {
        self.entries[i].0.as_str()
    }

    pub fn value(&self, i: usize) -> (res: &T)
        requires
            i < self@.len(),
        ensures
            *res == self@[i as int].1,
    {
        &self.entries[i].1
    }

    /// Puts `value` under `name`, in place of what stood there.
    pub fn put(&mut self, name: String, value: T)
        requires
            in_order(old(self)@),
        ensures
            final(self)@ == with_entry(old(self)@, name@, value),
            in_order(final(self)@),
    {
        let ghost before = self@;
        let mut at: usize = 0;
        proof {
            law_names_stay_in_order(before, name@, value);
            lemma_rank(before, name@, 0);
        }
        while at < self.entries.len() && comes_before(self.entries[at].0.as_str(), name.as_str())
            invariant
                self@ == before,
                at <= before.len(),
                before.len() == self.entries@.len(),
                rank(before, name@, 0) == rank(before, name@, at as int),
            decreases self.entries@.len() - at,
        {
            at = at + 1;
        }
        let ghost value_before = value;
        if at < self.entries.len() && same_text(self.entries[at].0.as_str(), name.as_str()) {
            let ghost key = name@;
            self.entries.set(at, (name, value));
            assert(self@ =~= before.update(at as int, (key, value_before)));
        } else {
            let ghost key = name@;
            self.entries.insert(at, (name, value));
            assert(self@ =~= before.insert(at as int, (key, value_before)));
        }
    }

    pub fn get(&self, name: &str) -> (res: Option<&T>)
        ensures
            match entry(self@, name@) {
                Some(value) => res == Some(&value),
                None => res is None,
            },
    {
        let mut i: usize = 0;
        while i < self.entries.len()
            invariant
                i <= self@.len(),
                self@.len() == self.entries@.len(),
                position(self@, name@, 0) == position(self@, name@, i as int),
            decreases self.entries@.len() - i,
        {
            if same_text(self.entries[i].0.as_str(), name) {
                return Some(&self.entries[i].1);
            }
            i = i + 1;
        }
        None
    }
}

proof fn lemma_differs_first(a: Seq<char>, b: Seq<char>, from: int)
    requires
        0 <= from <= a.len(),
        from <= b.len(),
        a.take(from) == b.take(from),
    ensures
        precedes_from(a, b, from) <==> exists|i: int|
            from <= i <= a.len() && i < b.len() && #[trigger] a.take(i) == b.take(i) && (i
                == a.len() || a[i] < b[i]),
    decreases b.len() - from,
{
    if from < b.len() && from < a.len() && a[from] == b[from] {
        assert(a.take(from + 1) =~= b.take(from + 1)) by {
            assert forall|k: int| 0 <= k < from + 1 implies a[k] == b[k] by {
                if k < from {
                    assert(a.take(from)[k] == a[k] && b.take(from)[k] == b[k]);
                }
            }
        }
        lemma_differs_first(a, b, from + 1);
        if precedes_from(a, b, from + 1) {
            let i = choose|i: int|
                from + 1 <= i <= a.len() && i < b.len() && #[trigger] a.take(i) == b.take(i) && (i
                    == a.len() || a[i] < b[i]);
            assert(from <= i);
        }
    } else {
        assert forall|i: int|
            from < i <= a.len() && i < b.len() implies #[trigger] a.take(i) != b.take(i) by {
            assert(a.take(i)[from] == a[from] && b.take(i)[from] == b[from]);
        }
        if from < b.len() && (from == a.len() || a[from] < b[from]) {
            assert(a.take(from) == b.take(from));
        }
    }
}

/// Names stand as in a dictionary: one comes before another where it is the
/// beginning of it, or has the smaller character where they first differ.
pub proof fn law_names_stand_as_in_a_dictionary(a: Seq<char>, b: Seq<char>)
    ensures
        precedes(a, b) <==> exists|i: int|
            0 <= i <= a.len() && i < b.len() && #[trigger] a.take(i) == b.take(i) && (i == a.len()
                || a[i] < b[i]),
{
    assert(a.take(0) =~= b.take(0));
    lemma_differs_first(a, b, 0);
}

} // verus!
