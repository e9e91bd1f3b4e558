//! Falcon BMS key files: the callbacks that they bind to keys, how a key file
//! is read, and how callbacks are looked up and proposed by name.
use vstd::prelude::*;

use crate::keys::{
    key_for_code, key_number, key_number_of, lookup_key_code, modifiers_of, parse_modifiers, Key,
    Modifier,
};
use crate::text::{
    chars_of, decimal_digits, parse_i64, parse_i64_spec, push_chars, push_decimal, split_words,
    starts_with, string_from_chars, words,
};

verus! {

/// A callback of the simulator and the keystrokes bound to it: a key with
/// its modifiers, and, where `combo_key_code` is not 0, a key (with its
/// modifiers) that is struck first.
#[derive(Debug)]
pub struct Callback {
    pub name: String,
    pub key_code: u16,
    pub readable_key_code: Key,
    pub modifiers: Vec<Modifier>,
    pub combo_key_code: u16,
    pub readable_combo_key_code: Key,
    pub combo_modifiers: Vec<Modifier>,
}

/// What a callback is, as plain values.
pub struct CallbackView {
    pub name: Seq<char>,
    pub key_code: u16,
    pub readable_key_code: Key,
    pub modifiers: Seq<Modifier>,
    pub combo_key_code: u16,
    pub readable_combo_key_code: Key,
    pub combo_modifiers: Seq<Modifier>,
}

impl View for Callback {
    type V = CallbackView;

    open spec fn view(&self) -> CallbackView {
        CallbackView {
            name: self.name@,
            key_code: self.key_code,
            readable_key_code: self.readable_key_code,
            modifiers: self.modifiers@,
            combo_key_code: self.combo_key_code,
            readable_combo_key_code: self.readable_combo_key_code,
            combo_modifiers: self.combo_modifiers@,
        }
    }
}

/// A copy of a list of modifiers.
fn copy_modifiers(v: &Vec<Modifier>) -> (r: Vec<Modifier>)
    ensures
        r@ == v@,
{
    let mut r: Vec<Modifier> = Vec::new();
    let mut i: usize = 0;
    while i < v.len()
        invariant
            i <= v.len(),
            r@ == v@.take(i as int),
        decreases v.len() - i,
    {
        r.push(v[i]);
        assert(r@ =~= v@.take(i + 1));
        i += 1;
    }
    assert(r@ =~= v@);
    r
}

impl Clone for Callback {
    fn clone(&self) -> (r: Self)
        ensures
            r@ == self@,
    {
        Callback {
            name: self.name.clone(),
            key_code: self.key_code,
            readable_key_code: self.readable_key_code,
            modifiers: copy_modifiers(&self.modifiers),
            combo_key_code: self.combo_key_code,
            readable_combo_key_code: self.readable_combo_key_code,
            combo_modifiers: copy_modifiers(&self.combo_modifiers),
        }
    }
}


/// The callbacks of a stored list, by name: a later entry for a name
/// replaces an earlier one.
pub open spec fn entries_map(entries: Seq<(String, Callback)>) -> Map<Seq<char>, CallbackView>
    decreases entries.len(),
{
    if entries.len() == 0 {
        Map::empty()
    } else {
        entries_map(entries.drop_last()).insert(entries.last().0@, entries.last().1@)
    }
}

/// No name occurs twice in `entries`.
pub open spec fn distinct_names(entries: Seq<(String, Callback)>) -> bool {
    forall|i: int, j: int|
        0 <= i < j < entries.len() ==> (#[trigger] entries[i]).0@ != (#[trigger] entries[j]).0@
}

/// Where no name occurs twice, the map holds exactly the stored names, each
/// with its stored callback, and has one entry per stored element.
proof fn lemma_entries_map(entries: Seq<(String, Callback)>)
    requires
        distinct_names(entries),
    ensures
        forall|k: Seq<char>|
            entries_map(entries).dom().contains(k) <==> exists|i: int|
                0 <= i < entries.len() && (#[trigger] entries[i]).0@ == k,
        forall|i: int|
            0 <= i < entries.len() ==> entries_map(entries)[(#[trigger] entries[i]).0@]
                == entries[i].1@,
        entries_map(entries).dom().finite(),
        entries_map(entries).len() == entries.len(),
    decreases entries.len(),
{
    if entries.len() > 0 {
        let p = entries.drop_last();
        let x = entries.last();
        assert(distinct_names(p)) by {
            assert forall|i: int, j: int| 0 <= i < j < p.len() implies (#[trigger] p[i]).0@
                != (#[trigger] p[j]).0@ by {
                assert(p[i] == entries[i] && p[j] == entries[j]);
            }
        }
        lemma_entries_map(p);
        assert forall|k: Seq<char>|
            entries_map(entries).dom().contains(k) <==> exists|i: int|
                0 <= i < entries.len() && (#[trigger] entries[i]).0@ == k by {
            if entries_map(p).dom().contains(k) {
                let i = choose|i: int| 0 <= i < p.len() && (#[trigger] p[i]).0@ == k;
                assert(entries[i] == p[i]);
            }
            if exists|i: int| 0 <= i < entries.len() && (#[trigger] entries[i]).0@ == k {
                let i = choose|i: int| 0 <= i < entries.len() && (#[trigger] entries[i]).0@ == k;
                if i < p.len() {
                    assert(p[i] == entries[i]);
                }
            }
        }
        assert forall|i: int| 0 <= i < entries.len() implies entries_map(entries)[(
        #[trigger] entries[i]).0@] == entries[i].1@ by {
            if i < p.len() {
                assert(p[i] == entries[i]);
                assert(entries[i].0@ != entries[entries.len() - 1].0@);
            }
        }
        assert(!entries_map(p).dom().contains(x.0@)) by {
            if entries_map(p).dom().contains(x.0@) {
                let i = choose|i: int| 0 <= i < p.len() && (#[trigger] p[i]).0@ == x.0@;
                assert(p[i] == entries[i]);
                assert(entries[i].0@ != entries[entries.len() - 1].0@);
            }
        }
    }
}

/// The Levenshtein distance of `a` and `b`: the least number of insertions,
/// deletions and substitutions of single characters that turn `a` into `b`.
pub open spec fn edit_distance(a: Seq<char>, b: Seq<char>) -> nat
    decreases a.len() + b.len(),
{
    if a.len() == 0 {
        b.len()
    } else if b.len() == 0 {
        a.len()
    } else {
        let deletion = edit_distance(a.drop_last(), b) + 1;
        let insertion = edit_distance(a, b.drop_last()) + 1;
        let substitution = edit_distance(a.drop_last(), b.drop_last()) + if a.last()
            == b.last() {
            0nat
        } else {
            1nat
        };
        if deletion <= insertion && deletion <= substitution {
            deletion
        } else if insertion <= substitution {
            insertion
        } else {
            substitution
        }
    }
}

/// `levenshtein::levenshtein`: the Levenshtein distance of `a` and `b`,
/// counted over their characters. Its contract states that the result is
/// that distance.
#[verifier::external_body]
fn levenshtein_distance(a: &str, b: &str) -> (d: usize)
    ensures
        d == edit_distance(a@, b@),
{
    levenshtein::levenshtein(a, b)
}

/// `names` is an answer to a request for `count` names of `callbacks` close
/// to `query`: as many names as asked for (or all there are), none twice,
/// ordered by their distance to `query`, and no name left out is closer to
/// `query` than a name given.
pub open spec fn is_proposal(
    callbacks: Map<Seq<char>, CallbackView>,
    query: Seq<char>,
    count: nat,
    names: Seq<Seq<char>>,
) -> bool {
    &&& names.len() == (if count < callbacks.len() {
        count
    } else {
        callbacks.len()
    })
    &&& forall|i: int| 0 <= i < names.len() ==> callbacks.dom().contains(#[trigger] names[i])
    &&& forall|i: int, j: int|
        0 <= i < j < names.len() ==> #[trigger] names[i] != #[trigger] names[j]
    &&& forall|i: int, j: int|
        0 <= i < j < names.len() ==> edit_distance(query, #[trigger] names[i]) <= edit_distance(
            query,
            #[trigger] names[j],
        )
    &&& forall|k: Seq<char>, i: int|
        #![trigger callbacks.dom().contains(k), names[i]]
        callbacks.dom().contains(k) && !names.contains(k) && 0 <= i < names.len()
            ==> edit_distance(query, names[i]) <= edit_distance(query, k)
}

/// Only a string is at distance 0 from itself.
pub proof fn lemma_edit_distance_zero(a: Seq<char>, b: Seq<char>)
    ensures
        edit_distance(a, b) == 0 <==> a == b,
    decreases a.len() + b.len(),
{
    if a.len() > 0 && b.len() > 0 {
        lemma_edit_distance_zero(a.drop_last(), b.drop_last());
        if a == b {
            assert(a.drop_last() == b.drop_last());
        }
        if edit_distance(a, b) == 0 {
            assert(a.drop_last() == b.drop_last());
            assert(a =~= a.drop_last().push(a.last()));
            assert(b =~= b.drop_last().push(b.last()));
        }
    } else if a.len() == 0 && b.len() == 0 {
        assert(a =~= b);
    }
}

/// Where the name asked for is bound, it is the first name proposed.
pub proof fn lemma_exact_name_proposed_first(
    callbacks: Map<Seq<char>, CallbackView>,
    query: Seq<char>,
    count: nat,
    names: Seq<Seq<char>>,
)
    requires
        callbacks.dom().finite(),
        is_proposal(callbacks, query, count, names),
        callbacks.dom().contains(query),
        count > 0,
    ensures
        names.len() > 0,
        names[0] == query,
{
    lemma_edit_distance_zero(query, query);
    vstd::set_lib::lemma_set_empty_equivalency_len(callbacks.dom());
    assert(callbacks.len() > 0);
    lemma_edit_distance_zero(query, names[0]);
    if names.contains(query) {
        let i = choose|i: int| 0 <= i < names.len() && names[i] == query;
        if i > 0 {
            assert(edit_distance(query, names[0]) <= edit_distance(query, names[i]));
        }
    } else {
        assert(edit_distance(query, names[0]) <= edit_distance(query, query));
    }
}

/// Asked for at least as many names as are bound, every bound name is
/// proposed.
pub proof fn lemma_proposal_covers_all_names(
    callbacks: Map<Seq<char>, CallbackView>,
    query: Seq<char>,
    count: nat,
    names: Seq<Seq<char>>,
)
    requires
        callbacks.dom().finite(),
        is_proposal(callbacks, query, count, names),
        count >= callbacks.len(),
    ensures
        forall|k: Seq<char>| callbacks.dom().contains(k) ==> names.contains(k),
{
    assert(names.no_duplicates()) by {
        assert forall|i: int, j: int|
            0 <= i < names.len() && 0 <= j < names.len() && i != j implies names[i] != names[j] by {
            if i < j {
                assert(names[i] != names[j]);
            } else {
                assert(names[j] != names[i]);
            }
        }
    }
    names.unique_seq_to_set();
    assert(names.to_set().subset_of(callbacks.dom())) by {
        assert forall|k: Seq<char>| names.to_set().contains(k) implies callbacks.dom().contains(k) by {
            let i = choose|i: int| 0 <= i < names.len() && names[i] == k;
            assert(callbacks.dom().contains(names[i]));
        }
    }
    vstd::set_lib::lemma_set_subset_finite(callbacks.dom(), names.to_set());
    vstd::set_lib::lemma_subset_equality(names.to_set(), callbacks.dom());
    assert forall|k: Seq<char>| callbacks.dom().contains(k) implies names.contains(k) by {
        assert(names.to_set().contains(k));
    }
}

/// Stored lists whose elements look the same hold the same callbacks.
proof fn lemma_entries_map_by_views(a: Seq<(String, Callback)>, b: Seq<(String, Callback)>)
    requires
        a.len() == b.len(),
        forall|i: int| 0 <= i < a.len() ==> (#[trigger] a[i]).0@ == b[i].0@ && a[i].1@ == b[i].1@,
    ensures
        entries_map(a) == entries_map(b),
    decreases a.len(),
{
    if a.len() > 0 {
        lemma_entries_map_by_views(a.drop_last(), b.drop_last());
        assert(a.last() == a[a.len() - 1]);
    }
}

/// What a key file is, as plain values: its name and its callbacks by name.
pub struct FalconKeyfileView {
    pub name: Seq<char>,
    pub callbacks: Map<Seq<char>, CallbackView>,
}

/// The line that describes a key file: its name, then ` with `, the number
/// of callbacks that it binds in decimal, and ` callbacks.`.
pub open spec fn description(k: FalconKeyfileView) -> Seq<char> {
    k.name + " with "@ + decimal_digits(k.callbacks.len()) + " callbacks."@
}

/// A key file that has been read: its name and the callbacks that it binds.
#[derive(Debug)]
pub struct FalconKeyfile {
    name: String,
    callbacks: Vec<(String, Callback)>,
}

impl View for FalconKeyfile {
    type V = FalconKeyfileView;

    closed spec fn view(&self) -> FalconKeyfileView {
        FalconKeyfileView { name: self.name@, callbacks: entries_map(self.callbacks@) }
    }
}

impl Clone for FalconKeyfile {
    fn clone(&self) -> (r: Self)
        ensures
            r@ == self@,
    {
        proof {
            use_type_invariant(self);
        }
        let mut callbacks: Vec<(String, Callback)> = Vec::new();
        let n = self.callbacks.len();
        let mut i: usize = 0;
        while i < n
            invariant
                n == self.callbacks.len(),
                i <= n,
                callbacks.len() == i,
                distinct_names(self.callbacks@),
                forall|j: int|
                    0 <= j < i ==> (#[trigger] callbacks@[j]).0@ == self.callbacks@[j].0@
                        && callbacks@[j].1@ == self.callbacks@[j].1@,
            decreases n - i,
        {
            let entry = (self.callbacks[i].0.clone(), self.callbacks[i].1.clone());
            callbacks.push(entry);
            i += 1;
        }
        proof {
            lemma_entries_map_by_views(callbacks@, self.callbacks@);
            assert forall|a: int, b: int| 0 <= a < b < callbacks@.len() implies (
            #[trigger] callbacks@[a]).0@ != (#[trigger] callbacks@[b]).0@ by {
                assert(self.callbacks@[a].0@ != self.callbacks@[b].0@);
            }
        }
        FalconKeyfile { name: self.name.clone(), callbacks }
    }
}

impl FalconKeyfile {
    #[verifier::type_invariant]
    spec fn names_are_distinct(&self) -> bool {
        distinct_names(self.callbacks@)
    }

    /// A key file with the given name that binds, for each name, the last
    /// callback that `keycodes_by_callback` gives for it.
    pub fn new(name: String, keycodes_by_callback: Vec<(String, Callback)>) -> (r: FalconKeyfile)
        ensures
            r@ == (FalconKeyfileView {
                name: name@,
                callbacks: entries_map(keycodes_by_callback@),
            }),
    {
        let mut r = FalconKeyfile { name, callbacks: Vec::new() };
        assert(r.callbacks@ =~= seq![]);
        let ghost input = keycodes_by_callback@;
        for entry in it: keycodes_by_callback
            invariant
                it.seq() == input,
                r@.name == name@,
                r@.callbacks == entries_map(input.take(it.index() as int)),
        {
            let ghost i = it.index();
            assert(input.take(i + 1).drop_last() =~= input.take(i as int));
            let (key, callback) = entry;
            r.insert(key, callback);
        }
        assert(input.take(input.len() as int) =~= input);
        r
    }

    /// The callback bound to `callback_name`, if there is one.
    pub fn callback(&self, callback_name: &str) -> (r: Option<Callback>)
        ensures
            match r {
                Some(c) => self@.callbacks.dom().contains(callback_name@) && c@
                    == self@.callbacks[callback_name@],
                None => !self@.callbacks.dom().contains(callback_name@),
            },
    {
        proof {
            use_type_invariant(self);
            lemma_entries_map(self.callbacks@);
        }
        let wanted = callback_name.to_owned();
        let n = self.callbacks.len();
        let mut i: usize = 0;
        while i < n
            invariant
                n == self.callbacks.len(),
                i <= n,
                wanted@ == callback_name@,
                distinct_names(self.callbacks@),
                forall|j: int| 0 <= j < i ==> (#[trigger] self.callbacks@[j]).0@ != wanted@,
            decreases n - i,
        {
            if self.callbacks[i].0 == wanted {
                proof {
                    lemma_entries_map(self.callbacks@);
                }
                return Some(self.callbacks[i].1.clone());
            }
            i += 1;
        }
        None
    }

    /// A line that names the key file and says how many callbacks it binds.
    pub fn describe(&self) -> (r: String)
        ensures
            r@ == description(self@),
    {
        proof {
            use_type_invariant(self);
            lemma_entries_map(self.callbacks@);
        }
        let mut out = chars_of(self.name.as_str());
        push_chars(&mut out, " with ");
        push_decimal(self.callbacks.len() as u64, &mut out);
        push_chars(&mut out, " callbacks.");
        string_from_chars(&out)
    }

    /// The names of the `count` callbacks whose names are closest to `query`
    /// (all of them where there are fewer), closest first.
    pub fn propose_callback_names(&self, query: String, count: usize) -> (r: Vec<String>)
        ensures
            is_proposal(self@.callbacks, query@, count as nat, r@.map_values(|s: String| s@)),
    {
        proof {
            use_type_invariant(self);
            lemma_entries_map(self.callbacks@);
        }
        let ghost cbs = self.callbacks@;
        let n = self.callbacks.len();
        let mut dists: Vec<usize> = Vec::new();
        let mut rest: Vec<usize> = Vec::new();
        let mut i: usize = 0;
        while i < n
            invariant
                n == self.callbacks.len(),
                cbs == self.callbacks@,
                i <= n,
                dists.len() == i,
                rest@ == Seq::new(i as nat, |j: int| j as usize),
                forall|j: int|
                    0 <= j < i ==> dists@[j] == edit_distance(query@, (#[trigger] cbs[j]).0@),
            decreases n - i,
        {
            dists.push(levenshtein_distance(query.as_str(), self.callbacks[i].0.as_str()));
            rest.push(i);
            assert(rest@ =~= Seq::new((i + 1) as nat, |j: int| j as usize));
            i += 1;
        }
        let m: usize = if count < n {
            count
        } else {
            n
        };
        let mut result: Vec<String> = Vec::new();
        let ghost mut picked: Seq<usize> = seq![];
        assert forall|j: usize| j < n implies #[trigger] rest@.contains(j) by {
            assert(rest@[j as int] == j);
        }
        while result.len() < m
            invariant
                n == self.callbacks.len(),
                cbs == self.callbacks@,
                distinct_names(cbs),
                m <= n,
                dists.len() == n,
                forall|j: int|
                    0 <= j < n ==> dists@[j] == edit_distance(query@, (#[trigger] cbs[j]).0@),
                result.len() == picked.len(),
                result.len() <= m,
                rest.len() + picked.len() == n,
                forall|a: int| 0 <= a < picked.len() ==> #[trigger] picked[a] < n,
                forall|a: int|
                    0 <= a < picked.len() ==> (#[trigger] result@[a])@ == cbs[picked[a] as int].0@,
                forall|r: int| 0 <= r < rest.len() ==> (#[trigger] rest@[r]) < n,
                forall|a: int, b: int|
                    0 <= a < b < picked.len() ==> #[trigger] picked[a] != #[trigger] picked[b],
                forall|x: int, y: int|
                    0 <= x < y < rest.len() ==> #[trigger] rest@[x] != #[trigger] rest@[y],
                forall|a: int, r: int|
                    0 <= a < picked.len() && 0 <= r < rest.len() ==> #[trigger] picked[a]
                        != #[trigger] rest@[r],
                forall|j: usize| j < n ==> #[trigger] picked.contains(j) || rest@.contains(j),
                forall|a: int, b: int|
                    0 <= a < b < picked.len() ==> dists@[#[trigger] picked[a] as int]
                        <= dists@[#[trigger] picked[b] as int],
                forall|a: int, r: int|
                    0 <= a < picked.len() && 0 <= r < rest.len() ==> dists@[#[trigger] picked[a] as int]
                        <= dists@[#[trigger] rest@[r] as int],
            decreases m - result.len(),
        {
            let mut best: usize = 0;
            let mut p: usize = 1;
            while p < rest.len()
                invariant
                    rest.len() > 0,
                    best < rest.len(),
                    1 <= p <= rest.len(),
                    dists.len() == n,
                    forall|r: int| 0 <= r < rest.len() ==> (#[trigger] rest@[r]) < n,
                    forall|q: int|
                        0 <= q < p ==> dists@[rest@[best as int] as int] <= dists@[#[trigger] rest@[q] as int],
                decreases rest.len() - p,
            {
                if dists[rest[p]] < dists[rest[best]] {
                    best = p;
                }
                p += 1;
            }
            let ghost old_rest = rest@;
            let ghost old_picked = picked;
            assert forall|j: usize| j < n && !old_rest.contains(j) implies old_picked.contains(j) by {
                assert(picked.contains(j) || rest@.contains(j));
            }
            let chosen = rest.remove(best);
            proof {
                assert forall|r: int| 0 <= r < rest.len() implies #[trigger] rest@[r] == (if r < best {
                    old_rest[r]
                } else {
                    old_rest[r + 1]
                }) by {}
                picked = picked.push(chosen);
            }
            let ghost old_result = result@;
            let name = self.callbacks[chosen].0.clone();
            assert(name@ == cbs[chosen as int].0@);
            result.push(name);
            proof {
                assert forall|a: int| 0 <= a < picked.len() implies #[trigger] picked[a] < n by {
                    if a < picked.len() - 1 {
                        assert(picked[a] == old_picked[a]);
                    }
                }
                assert forall|a: int| 0 <= a < picked.len() implies (
                #[trigger] result@[a])@ == cbs[picked[a] as int].0@ by {
                    if a < picked.len() - 1 {
                        assert(result@[a] == old_result[a]);
                        assert(picked[a] == old_picked[a]);
                    }
                }
                assert forall|j: usize| j < n implies #[trigger] picked.contains(j) || rest@.contains(
                    j,
                ) by {
                    if old_rest.contains(j) {
                        let r = choose|r: int| 0 <= r < old_rest.len() && old_rest[r] == j;
                        if r < best {
                            assert(rest@[r] == j);
                        } else if r > best {
                            assert(rest@[r - 1] == j);
                        } else {
                            assert(picked[picked.len() - 1] == j);
                        }
                    } else {
                        assert(old_picked.contains(j));
                        let a = choose|a: int| 0 <= a < old_picked.len() && old_picked[a] == j;
                        assert(picked[a] == j);
                    }
                }
            }
        }
        proof {
            let names = result@.map_values(|s: String| s@);
            let view = entries_map(cbs);
            assert forall|i: int| 0 <= i < names.len() implies view.dom().contains(
                #[trigger] names[i],
            ) by {
                assert(names[i] == cbs[picked[i] as int].0@);
            }
            assert forall|i: int, j: int| 0 <= i < j < names.len() implies #[trigger] names[i]
                != #[trigger] names[j] by {
                assert(names[i] == cbs[picked[i] as int].0@);
                assert(names[j] == cbs[picked[j] as int].0@);
                if picked[i] < picked[j] {
                    assert(cbs[picked[i] as int].0@ != cbs[picked[j] as int].0@);
                } else {
                    assert(cbs[picked[j] as int].0@ != cbs[picked[i] as int].0@);
                }
            }
            assert forall|i: int, j: int| 0 <= i < j < names.len() implies edit_distance(
                query@,
                #[trigger] names[i],
            ) <= edit_distance(query@, #[trigger] names[j]) by {
                assert(names[i] == cbs[picked[i] as int].0@);
                assert(names[j] == cbs[picked[j] as int].0@);
                assert(dists@[picked[i] as int] <= dists@[picked[j] as int]);
            }
            assert forall|k: Seq<char>, i: int|
                #![trigger view.dom().contains(k), names[i]]
                view.dom().contains(k) && !names.contains(k) && 0 <= i < names.len()
                    implies edit_distance(query@, names[i]) <= edit_distance(query@, k) by {
                let j = choose|j: int| 0 <= j < cbs.len() && (#[trigger] cbs[j]).0@ == k;
                assert(names[i] == cbs[picked[i] as int].0@);
                if picked.contains(j as usize) {
                    let a = choose|a: int| 0 <= a < picked.len() && picked[a] == j as usize;
                    assert(names[a] == k);
                    assert(false);
                } else {
                    let r = choose|r: int| 0 <= r < rest.len() && rest@[r] == j as usize;
                    assert(dists@[picked[i] as int] <= dists@[rest@[r] as int]);
                }
            }
        }
        result
    }

    /// Binds `callback` to `key`, replacing what `key` was bound to.
    fn insert(&mut self, key: String, callback: Callback)
        ensures
            final(self)@ == (FalconKeyfileView {
                name: old(self)@.name,
                callbacks: old(self)@.callbacks.insert(key@, callback@),
            }),
    {
        proof {
            use_type_invariant(&*self);
            lemma_entries_map(self.callbacks@);
        }
        let n = self.callbacks.len();
        let ghost before = self.callbacks@;
        let mut i: usize = 0;
        while i < n
            invariant
                n == self.callbacks.len(),
                self.callbacks@ == before,
                distinct_names(before),
                old(self)@.callbacks == entries_map(before),
                old(self)@.name == self@.name,
                i <= n,
                forall|j: int| 0 <= j < i ==> (#[trigger] self.callbacks@[j]).0@ != key@,
            decreases n - i,
        {
            if self.callbacks[i].0 == key {
                let ghost k = key@;
                let ghost v = callback@;
                let ghost after = before.update(i as int, (key, callback));
                proof {
                    assert forall|a: int, b: int| 0 <= a < b < after.len() implies (
                    #[trigger] after[a]).0@ != (#[trigger] after[b]).0@ by {
                        assert(before[a].0@ != before[b].0@);
                        assert(after[a].0@ == before[a].0@);
                        assert(after[b].0@ == before[b].0@);
                    }
                    lemma_entries_map(after);
                    lemma_entries_map(before);
                    assert forall|kk: Seq<char>| #[trigger]
                        entries_map(after).dom().contains(kk) == entries_map(before).insert(
                            k,
                            v,
                        ).dom().contains(kk) by {
                        assert(after[i as int].0@ == k);
                        assert(before[i as int].0@ == k);
                        if exists|j: int| 0 <= j < before.len() && (#[trigger] before[j]).0@ == kk {
                            let j = choose|j: int|
                                0 <= j < before.len() && (#[trigger] before[j]).0@ == kk;
                            if j != i {
                                assert(after[j] == before[j]);
                            }
                        }
                        if exists|j: int| 0 <= j < after.len() && (#[trigger] after[j]).0@ == kk {
                            let j = choose|j: int|
                                0 <= j < after.len() && (#[trigger] after[j]).0@ == kk;
                            if j != i {
                                assert(after[j] == before[j]);
                            }
                        }
                    }
                    assert forall|kk: Seq<char>| #[trigger]
                        entries_map(after).dom().contains(kk) implies entries_map(after)[kk]
                        == entries_map(before).insert(k, v)[kk] by {
                        let j = choose|j: int|
                            0 <= j < after.len() && (#[trigger] after[j]).0@ == kk;
                        if j != i {
                            assert(after[j] == before[j]);
                        }
                    }
                    assert(entries_map(after) =~= entries_map(before).insert(k, v));
                }
                let mut entries: Vec<(String, Callback)> = Vec::new();
                std::mem::swap(&mut entries, &mut self.callbacks);
                entries.set(i, (key, callback));
                assert(entries@ == after);
                self.callbacks = entries;
                return ;
            }
            i += 1;
        }
        let mut entries: Vec<(String, Callback)> = Vec::new();
        std::mem::swap(&mut entries, &mut self.callbacks);
        entries.push((key, callback));
        proof {
            let after = entries@;
            assert(after.drop_last() =~= before);
            assert forall|a: int, b: int| 0 <= a < b < after.len() implies (
            #[trigger] after[a]).0@ != (#[trigger] after[b]).0@ by {
                if b < before.len() {
                    assert(before[a].0@ != before[b].0@);
                    assert(after[a] == before[a] && after[b] == before[b]);
                } else {
                    assert(after[a] == before[a]);
                }
            }
        }
        self.callbacks = entries;
    }
}


/// `std::io::Error`, the error that reading a line of a key file can give.
#[verifier::external_type_specification]
#[verifier::external_body]
pub struct ExIoError(std::io::Error);

/// Why a key file could not be read.
#[derive(Debug)]
pub enum KeyFileError<'a> {
    /// The file holds no line at all.
    Empty,
    /// Reading a line failed.
    ReadError(std::io::Error),
    /// A line could not be understood.
    ParseError(&'a str),
}

/// A line that binds nothing and is not looked into: an empty line, a
/// comment, or a line for the `SimDoNothing` callback.
pub open spec fn is_skipped_line(line: Seq<char>) -> bool {
    ||| line.len() == 0
    ||| "#"@.is_prefix_of(line)
    ||| "SimDoNothing"@.is_prefix_of(line)
}

/// A line of the key file format: a skipped line; or the name of a callback
/// (the first word), which is `SimDoNothing`, or is followed by a second
/// word and a third word that is an `i64`; where that number is 0 the line is
/// a key binding, whose fourth to seventh words give the key's scan code (one
/// that names a key), its modifiers, the combo key's scan code (one that
/// names a key) and the combo key's modifiers.
pub open spec fn is_well_formed_line(line: Seq<char>) -> bool {
    let w = words(line);
    ||| is_skipped_line(line)
    ||| w.len() >= 1 && w[0] == "SimDoNothing"@
    ||| {
        &&& w.len() >= 3
        &&& parse_i64_spec(w[2]) is Some
        &&& parse_i64_spec(w[2]) == Some(0i64) ==> {
            &&& w.len() >= 7
            &&& key_number(w[3]) is Some
            &&& key_for_code(key_number(w[3])->0) is Some
            &&& key_number(w[4]) is Some
            &&& key_number(w[5]) is Some
            &&& key_for_code(key_number(w[5])->0) is Some
            &&& key_number(w[6]) is Some
        }
    }
}

/// The callback that a well-formed line binds, if it binds one.
pub open spec fn line_callback(line: Seq<char>) -> Option<CallbackView> {
    let w = words(line);
    if is_skipped_line(line) || w[0] == "SimDoNothing"@ || parse_i64_spec(w[2]) != Some(0i64) {
        None
    } else {
        Some(
            CallbackView {
                name: w[0],
                key_code: key_number(w[3])->0,
                readable_key_code: key_for_code(key_number(w[3])->0)->0,
                modifiers: modifiers_of(key_number(w[4])->0),
                combo_key_code: key_number(w[5])->0,
                readable_combo_key_code: key_for_code(key_number(w[5])->0)->0,
                combo_modifiers: modifiers_of(key_number(w[6])->0),
            },
        )
    }
}

/// A well-formed line that is not skipped, whose first word is not
/// `SimDoNothing` and whose third word reads as 0 binds a callback: named by
/// its first word, struck by the key of its fourth word with the modifiers
/// of its fifth, after the combo key of its sixth with the modifiers of its
/// seventh; whatever words follow the seventh.
pub proof fn lemma_key_binding_lines_bind(line: Seq<char>)
    requires
        is_well_formed_line(line),
        !is_skipped_line(line),
        words(line)[0] != "SimDoNothing"@,
        parse_i64_spec(words(line)[2]) == Some(0i64),
    ensures
        ({
            let w = words(line);
            &&& w.len() >= 7
            &&& line_callback(line) is Some
            &&& line_callback(line)->0.name == w[0]
            &&& Some(line_callback(line)->0.key_code) == key_number(w[3])
            &&& Some(line_callback(line)->0.readable_key_code) == key_for_code(
                key_number(w[3])->0,
            )
            &&& line_callback(line)->0.modifiers == modifiers_of(key_number(w[4])->0)
            &&& Some(line_callback(line)->0.combo_key_code) == key_number(w[5])
            &&& Some(line_callback(line)->0.readable_combo_key_code) == key_for_code(
                key_number(w[5])->0,
            )
            &&& line_callback(line)->0.combo_modifiers == modifiers_of(key_number(w[6])->0)
        }),
{
}

/// Only the first seven words of a line that is not skipped decide what it
/// binds: two such lines that agree on them bind the same.
pub proof fn lemma_only_seven_words_count(a: Seq<char>, b: Seq<char>)
    requires
        !is_skipped_line(a),
        !is_skipped_line(b),
        words(a).len() >= 7,
        words(b).len() >= 7,
        words(a).take(7) == words(b).take(7),
    ensures
        line_callback(a) == line_callback(b),
{
    let wa = words(a);
    let wb = words(b);
    assert(wa[0] == wa.take(7)[0] && wb[0] == wb.take(7)[0]);
    assert(wa[2] == wa.take(7)[2] && wb[2] == wb.take(7)[2]);
    assert(wa[3] == wa.take(7)[3] && wb[3] == wb.take(7)[3]);
    assert(wa[4] == wa.take(7)[4] && wb[4] == wb.take(7)[4]);
    assert(wa[5] == wa.take(7)[5] && wb[5] == wb.take(7)[5]);
    assert(wa[6] == wa.take(7)[6] && wb[6] == wb.take(7)[6]);
}

/// The callbacks that the lines bind, by name: a later line for a name
/// replaces an earlier one.
pub open spec fn callbacks_of_lines(lines: Seq<Seq<char>>) -> Map<Seq<char>, CallbackView>
    decreases lines.len(),
{
    if lines.len() == 0 {
        Map::empty()
    } else {
        let m = callbacks_of_lines(lines.drop_last());
        match line_callback(lines.last()) {
            Some(c) => m.insert(c.name, c),
            None => m,
        }
    }
}

/// Every callback that the lines bind is bound under its own name.
pub proof fn lemma_callbacks_bound_under_their_names(lines: Seq<Seq<char>>)
    ensures
        forall|k: Seq<char>| #[trigger]
            callbacks_of_lines(lines).dom().contains(k) ==> callbacks_of_lines(lines)[k].name == k,
    decreases lines.len(),
{
    if lines.len() > 0 {
        lemma_callbacks_bound_under_their_names(lines.drop_last());
    }
}

/// A skipped line (empty, a comment, or for `SimDoNothing`) binds nothing.
pub proof fn lemma_skipped_line_binds_nothing(lines: Seq<Seq<char>>, line: Seq<char>)
    requires
        is_skipped_line(line),
    ensures
        callbacks_of_lines(lines.push(line)) == callbacks_of_lines(lines),
{
    assert(lines.push(line).drop_last() =~= lines);
}

/// The lines that bind nothing: skipped lines, lines for `SimDoNothing`, and
/// lines whose third word is a number other than 0.
pub proof fn lemma_lines_that_bind_nothing(line: Seq<char>)
    ensures
        is_skipped_line(line) ==> line_callback(line) is None,
        words(line).len() >= 1 && words(line)[0] == "SimDoNothing"@ ==> line_callback(line) is None,
        words(line).len() >= 3 && parse_i64_spec(words(line)[2]) is Some && parse_i64_spec(
            words(line)[2],
        ) != Some(0i64) ==> line_callback(line) is None,
{
}

/// A line that binds nothing changes nothing, wherever among the lines it
/// stands.
pub proof fn lemma_line_binding_nothing_inserted(lines: Seq<Seq<char>>, i: int, line: Seq<char>)
    requires
        0 <= i <= lines.len(),
        line_callback(line) is None,
    ensures
        callbacks_of_lines(lines.insert(i, line)) == callbacks_of_lines(lines),
    decreases lines.len(),
{
    let longer = lines.insert(i, line);
    if i == lines.len() {
        assert(longer.drop_last() =~= lines);
    } else {
        lemma_line_binding_nothing_inserted(lines.drop_last(), i, line);
        assert(longer.drop_last() =~= lines.drop_last().insert(i, line));
        assert(longer.last() == lines.last());
    }
}

/// A line that binds a callback binds it under its name, whatever earlier
/// lines bound there; other names keep what they were bound to.
pub proof fn lemma_later_binding_wins(lines: Seq<Seq<char>>, line: Seq<char>)
    requires
        line_callback(line) is Some,
    ensures
        callbacks_of_lines(lines.push(line)) == callbacks_of_lines(lines).insert(
            line_callback(line)->0.name,
            line_callback(line)->0,
        ),
{
    assert(lines.push(line).drop_last() =~= lines);
}

/// What a line read from a key file holds: its text, or nothing where
/// reading it failed.
pub open spec fn line_text(line: Result<String, std::io::Error>) -> Seq<char> {
    match line {
        Ok(s) => s@,
        Err(_) => seq![],
    }
}

/// The lines after the first (the header), up to `end`, were read without
/// error.
pub open spec fn read_up_to(lines: Seq<Result<String, std::io::Error>>, end: int) -> bool {
    forall|j: int| 1 <= j < end ==> (#[trigger] lines[j]) is Ok
}

/// The text of the lines after the header, up to `end`.
pub open spec fn body_text(lines: Seq<Result<String, std::io::Error>>, end: int) -> Seq<Seq<char>> {
    lines.subrange(1, end).map_values(|l: Result<String, std::io::Error>| line_text(l))
}

/// The lines among `lines` that bind a callback, in order.
pub open spec fn binding_lines(lines: Seq<Seq<char>>) -> Seq<Seq<char>> {
    lines.filter(|l: Seq<char>| line_callback(l) is Some)
}

/// Only the lines that bind a callback count: the callbacks of `lines` are
/// those of its binding lines alone.
pub proof fn lemma_only_binding_lines_count(lines: Seq<Seq<char>>)
    ensures
        callbacks_of_lines(lines) == callbacks_of_lines(binding_lines(lines)),
    decreases lines.len(),
{
    reveal_with_fuel(Seq::filter, 1);
    if lines.len() > 0 {
        lemma_only_binding_lines_count(lines.drop_last());
        let rest = binding_lines(lines.drop_last());
        if line_callback(lines.last()) is Some {
            assert(rest.push(lines.last()).drop_last() =~= rest);
        }
    }
}

/// Two lists of lines with the same binding lines, in the same order, bind
/// the same callbacks: lines that bind nothing may be added or taken away
/// anywhere, any number of them.
pub proof fn lemma_same_binding_lines_same_callbacks(a: Seq<Seq<char>>, b: Seq<Seq<char>>)
    requires
        binding_lines(a) == binding_lines(b),
    ensures
        callbacks_of_lines(a) == callbacks_of_lines(b),
{
    lemma_only_binding_lines_count(a);
    lemma_only_binding_lines_count(b);
}

/// Lines that all bind nothing have no binding lines.
proof fn lemma_no_binding_lines(extra: Seq<Seq<char>>)
    requires
        forall|k: int| 0 <= k < extra.len() ==> line_callback(#[trigger] extra[k]) is None,
    ensures
        binding_lines(extra) == Seq::<Seq<char>>::empty(),
    decreases extra.len(),
{
    reveal_with_fuel(Seq::filter, 1);
    if extra.len() > 0 {
        let p = extra.drop_last();
        assert forall|k: int| 0 <= k < p.len() implies line_callback(#[trigger] p[k]) is None by {
            assert(p[k] == extra[k]);
        }
        lemma_no_binding_lines(p);
        assert(line_callback(extra[extra.len() - 1]) is None);
    } else {
        assert(binding_lines(extra) =~= Seq::<Seq<char>>::empty());
    }
}

/// Any number of lines that bind nothing, inserted together at any place
/// among the lines, change nothing.
pub proof fn lemma_lines_binding_nothing_inserted(
    lines: Seq<Seq<char>>,
    i: int,
    extra: Seq<Seq<char>>,
)
    requires
        0 <= i <= lines.len(),
        forall|k: int| 0 <= k < extra.len() ==> line_callback(#[trigger] extra[k]) is None,
    ensures
        callbacks_of_lines(lines.take(i) + extra + lines.skip(i)) == callbacks_of_lines(lines),
{
    let f = |l: Seq<char>| line_callback(l) is Some;
    lemma_no_binding_lines(extra);
    Seq::filter_distributes_over_add(lines.take(i), extra, f);
    Seq::filter_distributes_over_add(lines.take(i) + extra, lines.skip(i), f);
    Seq::filter_distributes_over_add(lines.take(i), lines.skip(i), f);
    assert(lines.take(i) + lines.skip(i) =~= lines);
    assert(binding_lines(lines.take(i)) + binding_lines(extra) =~= binding_lines(lines.take(i)));
    lemma_same_binding_lines_same_callbacks(lines.take(i) + extra + lines.skip(i), lines);
}

/// Two key files whose lines after the header were all read, and whose
/// binding lines after the header are the same, bind the same callbacks:
/// lines that bind nothing may be added or taken away anywhere after the
/// header, any number of them.
pub proof fn lemma_key_files_with_same_binding_lines(
    a: Seq<Result<String, std::io::Error>>,
    b: Seq<Result<String, std::io::Error>>,
)
    requires
        a.len() > 0,
        b.len() > 0,
        binding_lines(body_text(a, a.len() as int)) == binding_lines(body_text(b, b.len() as int)),
    ensures
        callbacks_of_lines(body_text(a, a.len() as int)) == callbacks_of_lines(
            body_text(b, b.len() as int),
        ),
{
    lemma_same_binding_lines_same_callbacks(body_text(a, a.len() as int), body_text(b, b.len() as int));
}

/// A key file read with an extra line after the header that binds nothing
/// (see `lemma_lines_that_bind_nothing`) binds the same callbacks as without it.
pub proof fn lemma_key_file_line_binding_nothing_inserted(
    lines: Seq<Result<String, std::io::Error>>,
    i: int,
    extra: String,
)
    requires
        1 <= i <= lines.len(),
        line_callback(extra@) is None,
    ensures
        ({
            let longer = lines.insert(i, Ok::<String, std::io::Error>(extra));
            &&& read_up_to(longer, longer.len() as int) == read_up_to(lines, lines.len() as int)
            &&& callbacks_of_lines(body_text(longer, longer.len() as int)) == callbacks_of_lines(
                body_text(lines, lines.len() as int),
            )
        }),
{
    let longer = lines.insert(i, Ok::<String, std::io::Error>(extra));
    let body = body_text(lines, lines.len() as int);
    assert(body_text(longer, longer.len() as int) =~= body.insert(i - 1, extra@));
    lemma_line_binding_nothing_inserted(body, i - 1, extra@);
    if read_up_to(lines, lines.len() as int) {
        assert forall|j: int| 1 <= j < longer.len() implies (#[trigger] longer[j]) is Ok by {
            if j > i {
                assert(longer[j] == lines[j - 1]);
            } else if j < i {
                assert(longer[j] == lines[j]);
            }
        }
    }
    if read_up_to(longer, longer.len() as int) {
        assert forall|j: int| 1 <= j < lines.len() implies (#[trigger] lines[j]) is Ok by {
            if j >= i {
                assert(longer[j + 1] == lines[j]);
            } else {
                assert(longer[j] == lines[j]);
            }
        }
    }
}

/// What one line of a key file is.
pub enum LineKind {
    /// A line that binds nothing.
    Skip,
    /// A line that binds a callback.
    Entry(Callback),
    /// A line outside the key file format.
    Malformed,
}

/// Two character sequences are the same.
fn same_chars(a: &Vec<char>, b: &Vec<char>) -> (r: bool)
    ensures
        r == (a@ == b@),
{
    if a.len() != b.len() {
        return false;
    }
    let mut i: usize = 0;
    while i < a.len()
        invariant
            a.len() == b.len(),
            i <= a.len(),
            forall|k: int| 0 <= k < i ==> a@[k] == b@[k],
        decreases a.len() - i,
    {
        if a[i] != b[i] {
            return false;
        }
        i += 1;
    }
    assert(a@ =~= b@);
    true
}

/// Reads one line of a key file.
fn classify_line(line: &Vec<char>) -> (r: LineKind)
    ensures
        match r {
            LineKind::Skip => is_well_formed_line(line@) && line_callback(line@) is None,
            LineKind::Entry(c) => is_well_formed_line(line@) && line_callback(line@) == Some(c@),
            LineKind::Malformed => !is_well_formed_line(line@),
        },
{
    if line.len() == 0 {
        return LineKind::Skip;
    }
    let comment = chars_of("#");
    let nothing = chars_of("SimDoNothing");
    if starts_with(line, &comment) || starts_with(line, &nothing) {
        return LineKind::Skip;
    }
    let w = split_words(line);
    if w.len() == 0 {
        return LineKind::Malformed;
    }
    if same_chars(&w[0], &nothing) {
        return LineKind::Skip;
    }
    if w.len() < 3 {
        return LineKind::Malformed;
    }
    match parse_i64(&w[2]) {
        None => LineKind::Malformed,
        Some(is_key) => {
            if is_key != 0 {
                return LineKind::Skip;
            }
            if w.len() < 7 {
                return LineKind::Malformed;
            }
            let key_code = match key_number_of(&w[3]) {
                Some(k) => k,
                None => {
                    return LineKind::Malformed;
                },
            };
            let readable_key_code = match lookup_key_code(key_code) {
                Some(k) => k,
                None => {
                    return LineKind::Malformed;
                },
            };
            let modifiers = match key_number_of(&w[4]) {
                Some(m) => m,
                None => {
                    return LineKind::Malformed;
                },
            };
            let combo_key_code = match key_number_of(&w[5]) {
                Some(k) => k,
                None => {
                    return LineKind::Malformed;
                },
            };
            let readable_combo_key_code = match lookup_key_code(combo_key_code) {
                Some(k) => k,
                None => {
                    return LineKind::Malformed;
                },
            };
            let combo_modifiers = match key_number_of(&w[6]) {
                Some(m) => m,
                None => {
                    return LineKind::Malformed;
                },
            };
            LineKind::Entry(
                Callback {
                    name: string_from_chars(&w[0]),
                    key_code,
                    readable_key_code,
                    modifiers: parse_modifiers(modifiers),
                    combo_key_code,
                    readable_combo_key_code,
                    combo_modifiers: parse_modifiers(combo_modifiers),
                },
            )
        },
    }
}

/// Whether `line` is a line of the key file format (see
/// `is_well_formed_line`); `parse` asks this of every line it reads.
pub fn is_key_file_line(line: &str) -> (r: bool)
    ensures
        r == is_well_formed_line(line@),
{
    let chars = chars_of(line);
    match classify_line(&chars) {
        LineKind::Malformed => false,
        _ => true,
    }
}

/// Adds to `key_file` the binding that the line `text` holds, if it holds one.
fn read_body_line(key_file: &mut FalconKeyfile, text: &String, Ghost(before): Ghost<Seq<Seq<char>>>)
    requires
        old(key_file)@.callbacks == callbacks_of_lines(before),
        is_well_formed_line(text@),
    ensures
        final(key_file)@.name == old(key_file)@.name,
        final(key_file)@.callbacks == callbacks_of_lines(before.push(text@)),
{
    let chars = chars_of(text.as_str());
    assert(before.push(text@).drop_last() =~= before);
    match classify_line(&chars) {
        LineKind::Entry(callback) => {
            let key = callback.name.clone();
            let ghost c = callback@;
            key_file.insert(key, callback);
            assert(callbacks_of_lines(before.push(text@)) == callbacks_of_lines(before).insert(
                c.name,
                c,
            ));
        },
        LineKind::Skip => {},
        LineKind::Malformed => {},
    }
}

/// Reads a key file named `name` from its lines, as reading them gave them:
/// the first line is a header and is passed over; from the others, each
/// binding of a callback to keys is collected, a later binding for a name
/// replacing an earlier one.
pub fn parse<'a>(name: String, lines: Vec<Result<String, std::io::Error>>) -> (r: Result<
    FalconKeyfile,
    KeyFileError<'a>,
>)
    requires
        forall|i: int|
            1 <= i < lines@.len() && read_up_to(lines@, i + 1) ==> is_well_formed_line(
                #[trigger] line_text(lines@[i]),
            ),
    ensures
        match r {
            Ok(key_file) => {
                &&& lines@.len() > 0
                &&& read_up_to(lines@, lines@.len() as int)
                &&& key_file@ == (FalconKeyfileView {
                    name: name@,
                    callbacks: callbacks_of_lines(body_text(lines@, lines@.len() as int)),
                })
            },
            Err(KeyFileError::Empty) => lines@.len() == 0,
            Err(KeyFileError::ReadError(e)) => exists|j: int|
                1 <= j < lines@.len() && read_up_to(lines@, j) && #[trigger] lines@[j] == Err::<
                    String,
                    std::io::Error,
                >(e),
            Err(KeyFileError::ParseError(_)) => false,
        },
{
    let ghost all = lines@;
    if lines.len() == 0 {
        return Err(KeyFileError::Empty);
    }
    let mut key_file = FalconKeyfile::new(name, Vec::new());
    assert(entries_map(Seq::<(String, Callback)>::empty()) =~= Map::empty());
    let mut header = true;
    for line in it: lines
        invariant
            it.seq() == all,
            all.len() > 0,
            header == (it.index() == 0),
            forall|i: int|
                1 <= i < all.len() && read_up_to(all, i + 1) ==> is_well_formed_line(
                    #[trigger] line_text(all[i]),
                ),
            read_up_to(all, it.index() as int),
            key_file@.name == name@,
            header ==> key_file@.callbacks == Map::<Seq<char>, CallbackView>::empty(),
            !header ==> key_file@.callbacks == callbacks_of_lines(
                body_text(all, it.index() as int),
            ),
    {
        let ghost i = it.index() as int;
        if header {
            header = false;
            assert(body_text(all, 1) =~= seq![]);
        } else {
            match line {
                Err(e) => {
                    assert(all[i] == Err::<String, std::io::Error>(e));
                    return Err(KeyFileError::ReadError(e));
                },
                Ok(text) => {
                    assert(read_up_to(all, i + 1));
                    assert(line_text(all[i]) == text@);
                    assert(body_text(all, i + 1) =~= body_text(all, i).push(text@));
                    assert(is_well_formed_line(line_text(all[i])));
                    read_body_line(&mut key_file, &text, Ghost(body_text(all, i)));
                },
            }
        }
    }
    Ok(key_file)
}

} // verus!
