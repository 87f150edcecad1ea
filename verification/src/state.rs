//! State identifiers, their automatic names, and the order in which states
//! are listed.

use vstd::prelude::*;
use vstd::string::*;
use vstd::utf8::*;
use crate::text::{decimal, lemma_decimal, push_decimal};

verus! {

/// The identifier of a state: a name, unique within one automaton.
#[derive(Debug, PartialEq, Eq, PartialOrd, Ord, Hash)]
pub struct State(pub String);

impl View for State {
    type V = Seq<char>;

    open spec fn view(&self) -> Seq<char> {
        self.0@
    }
}

impl From<String> for State {
    fn from(value: String) -> (state: State) {
        State(value)
    }
}

impl vstd::std_specs::convert::FromSpecImpl<String> for State {
    open spec fn obeys_from_spec() -> bool {
        true
    }

    open spec fn from_spec(value: String) -> State {
        State(value)
    }
}

impl From<State> for String {
    fn from(value: State) -> (name: String) {
        value.0
    }
}

impl vstd::std_specs::convert::FromSpecImpl<State> for String {
    open spec fn obeys_from_spec() -> bool {
        true
    }

    open spec fn from_spec(value: State) -> String {
        value.0
    }
}

impl Clone for State {
    fn clone(&self) -> (copy: State)
        ensures
            copy@ == self@,
    {
        State(self.0.clone())
    }
}

/// Lexicographic order on byte strings; a proper prefix comes first.
pub open spec fn bytes_lt(a: Seq<u8>, b: Seq<u8>) -> bool
    decreases a.len(),
{
    if b.len() == 0 {
        false
    } else if a.len() == 0 {
        true
    } else if a[0] != b[0] {
        a[0] < b[0]
    } else {
        bytes_lt(a.drop_first(), b.drop_first())
    }
}

/// The order in which state names are listed: by their UTF-8 encoding, byte
/// by byte.
pub open spec fn name_lt(a: Seq<char>, b: Seq<char>) -> bool {
    bytes_lt(encode_utf8(a), encode_utf8(b))
}

/// Each name of `names` comes strictly before every later one.
pub open spec fn strictly_sorted(names: Seq<Seq<char>>) -> bool {
    forall|i: int, j: int| 0 <= i < j < names.len() ==> name_lt(names[i], names[j])
}

/// No byte string comes before itself.
pub proof fn lemma_bytes_lt_irreflexive(a: Seq<u8>)
    ensures
        !bytes_lt(a, a),
    decreases a.len(),
{
    if a.len() > 0 {
        lemma_bytes_lt_irreflexive(a.drop_first());
    }
}

/// The order on byte strings is transitive.
pub proof fn lemma_bytes_lt_transitive(a: Seq<u8>, b: Seq<u8>, c: Seq<u8>)
    requires
        bytes_lt(a, b),
        bytes_lt(b, c),
    ensures
        bytes_lt(a, c),
    decreases a.len(),
{
    if a.len() > 0 && a[0] == b[0] && b[0] == c[0] {
        lemma_bytes_lt_transitive(a.drop_first(), b.drop_first(), c.drop_first());
    }
}

/// Of two different byte strings, one comes before the other.
pub proof fn lemma_bytes_lt_total(a: Seq<u8>, b: Seq<u8>)
    ensures
        bytes_lt(a, b) || bytes_lt(b, a) || a == b,
    decreases a.len(),
{
    if a.len() > 0 && b.len() > 0 && a[0] == b[0] {
        lemma_bytes_lt_total(a.drop_first(), b.drop_first());
        if a.drop_first() == b.drop_first() {
            assert(a =~= seq![a[0]] + a.drop_first());
            assert(b =~= seq![b[0]] + b.drop_first());
        }
    } else if a.len() == 0 && b.len() == 0 {
        assert(a =~= b);
    }
}

/// No name comes before itself.
pub proof fn lemma_name_lt_irreflexive(a: Seq<char>)
    ensures
        !name_lt(a, a),
{
    lemma_bytes_lt_irreflexive(encode_utf8(a));
}

/// The order on names is transitive.
pub proof fn lemma_name_lt_transitive(a: Seq<char>, b: Seq<char>, c: Seq<char>)
    requires
        name_lt(a, b),
        name_lt(b, c),
    ensures
        name_lt(a, c),
{
    lemma_bytes_lt_transitive(encode_utf8(a), encode_utf8(b), encode_utf8(c));
}

/// Of two different names, one comes before the other.
pub proof fn lemma_name_lt_total(a: Seq<char>, b: Seq<char>)
    ensures
        name_lt(a, b) || name_lt(b, a) || a == b,
{
    lemma_bytes_lt_total(encode_utf8(a), encode_utf8(b));
    if encode_utf8(a) == encode_utf8(b) {
        encode_utf8_decode_utf8(a);
        encode_utf8_decode_utf8(b);
    }
}

/// A strictly sorted listing names nothing twice.
pub proof fn lemma_strictly_sorted_no_duplicates(names: Seq<Seq<char>>)
    requires
        strictly_sorted(names),
    ensures
        names.no_duplicates(),
{
    assert forall|i: int, j: int| 0 <= i < names.len() && 0 <= j < names.len() && i != j implies names[i] != names[j] by {
        lemma_name_lt_irreflexive(names[i]);
        if i < j {
            assert(name_lt(names[i], names[j]));
        } else {
            assert(name_lt(names[j], names[i]));
        }
    }
}

/// Two strictly sorted listings of the same names are the same listing.
pub proof fn lemma_strictly_sorted_unique(x: Seq<Seq<char>>, y: Seq<Seq<char>>)
    requires
        strictly_sorted(x),
        strictly_sorted(y),
        x.to_set() == y.to_set(),
    ensures
        x == y,
    decreases x.len(),
{
    if x.len() > 0 {
        // The first of each listing is the least name of the set.
        assert(x.to_set().contains(x[0]));
        assert(y.to_set().contains(y[0]));
        let i = choose|i: int| 0 <= i < y.len() && y[i] == x[0];
        let j = choose|j: int| 0 <= j < x.len() && x[j] == y[0];
        if x[0] != y[0] {
            assert(name_lt(y[0], y[i]));
            assert(name_lt(x[0], x[j]));
            lemma_name_lt_transitive(x[0], y[0], x[0]);
            lemma_name_lt_irreflexive(x[0]);
        }
        let xs = x.drop_first();
        let ys = y.drop_first();
        assert forall|n: Seq<char>| xs.to_set().contains(n) <==> ys.to_set().contains(n) by {
            if xs.contains(n) {
                let k = choose|k: int| 0 <= k < xs.len() && xs[k] == n;
                assert(x[k + 1] == n);
                assert(name_lt(x[0], x[k + 1]));
                lemma_name_lt_irreflexive(n);
                assert(y.to_set().contains(n));
                let m = choose|m: int| 0 <= m < y.len() && y[m] == n;
                assert(ys[m - 1] == n);
            }
            if ys.contains(n) {
                let k = choose|k: int| 0 <= k < ys.len() && ys[k] == n;
                assert(y[k + 1] == n);
                assert(name_lt(y[0], y[k + 1]));
                lemma_name_lt_irreflexive(n);
                assert(x.to_set().contains(n));
                let m = choose|m: int| 0 <= m < x.len() && x[m] == n;
                assert(xs[m - 1] == n);
            }
        }
        assert(xs.to_set() =~= ys.to_set());
        assert forall|a: int, b: int| 0 <= a < b < xs.len() implies name_lt(xs[a], xs[b]) by {
            assert(name_lt(x[a + 1], x[b + 1]));
        }
        assert forall|a: int, b: int| 0 <= a < b < ys.len() implies name_lt(ys[a], ys[b]) by {
            assert(name_lt(y[a + 1], y[b + 1]));
        }
        lemma_strictly_sorted_unique(xs, ys);
        assert(x =~= seq![x[0]] + xs);
        assert(y =~= seq![y[0]] + ys);
    } else {
        if y.len() > 0 {
            assert(y.to_set().contains(y[0]));
            assert(x.to_set().contains(y[0]));
        }
        assert(x =~= y);
    }
}

/// The name given to the `k`-th automatically named state: `q0`, `q1`, ...
pub open spec fn state_name(k: nat) -> Seq<char> {
    seq!['q'] + decimal(k)
}

/// Different numbers give different names.
pub proof fn lemma_state_name_injective(a: nat, b: nat)
    requires
        state_name(a) == state_name(b),
    ensures
        a == b,
{
    assert(state_name(a).skip(1) =~= decimal(a));
    assert(state_name(b).skip(1) =~= decimal(b));
    lemma_decimal(a);
    lemma_decimal(b);
}

impl State {
    /// The identifier of the `k`-th automatically named state.
    pub fn numbered(k: u32) -> (s: State)
        ensures
            s@ == state_name(k as nat),
    {
        let mut name = String::new();
        name.push('q');
        push_decimal(&mut name, k as u64);
        proof {
            assert(name@ =~= state_name(k as nat));
        }
        State(name)
    }

    /// Whether the two identifiers are the same name.
    pub fn same(&self, other: &State) -> (r: bool)
        ensures
            r == (self@ == other@),
    {
        self.0 == other.0
    }

    /// Whether this identifier comes strictly before `other` in the order in
    /// which states are listed.
    pub fn precedes(&self, other: &State) -> (r: bool)
        ensures
            r == name_lt(self@, other@),
    {
        let a = self.0.as_str().as_bytes();
        let b = other.0.as_str().as_bytes();
        let mut i: usize = 0;
        proof {
            assert(a@.skip(0) =~= a@);
            assert(b@.skip(0) =~= b@);
        }
        while i < a.len() && i < b.len()
            invariant
                i <= a.len(),
                i <= b.len(),
                a@ == encode_utf8(self@),
                b@ == encode_utf8(other@),
                bytes_lt(a@, b@) == bytes_lt(a@.skip(i as int), b@.skip(i as int)),
            decreases a.len() - i,
        {
            proof {
                assert(a@.skip(i as int).drop_first() =~= a@.skip(i + 1));
                assert(b@.skip(i as int).drop_first() =~= b@.skip(i + 1));
            }
            if a[i] != b[i] {
                return a[i] < b[i];
            }
            i += 1;
        }
        i < b.len()
    }
}

} // verus!
