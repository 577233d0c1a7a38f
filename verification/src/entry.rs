//! The value stored by the index: a name together with its popularity count,
//! and the order by which entries are ranked.

use vstd::prelude::*;
use vstd::std_specs::iter::IteratorSpec;

verus! {

broadcast use vstd::string::group_string_axioms;

/// What an [`Entry`] stands for in contracts.
pub struct EntryView {
    pub name: Seq<char>,
    pub times: u64,
}

/// A name and the number of times it was chosen.
#[derive(Debug)]
pub struct Entry {
    name: String,
    times: u64,
}

/// ASCII upper-case letters are mapped to lower case, every other character to itself.
pub open spec fn fold_char(c: char) -> char {
    if 'A' <= c && c <= 'Z' {
        ((c as u8 + 32) as u8) as char
    } else {
        c
    }
}

/// The case-folded form of a name: the key under which the index files it.
pub open spec fn fold(s: Seq<char>) -> Seq<char> {
    Seq::new(s.len(), |i: int| fold_char(s[i]))
}

/// Strict lexicographic order on character sequences, by code point.
pub open spec fn lex_lt(a: Seq<char>, b: Seq<char>) -> bool
    decreases a.len(),
{
    if b.len() == 0 {
        false
    } else if a.len() == 0 {
        true
    } else if a[0] != b[0] {
        a[0] < b[0]
    } else {
        lex_lt(a.drop_first(), b.drop_first())
    }
}

/// `a` is ranked strictly before `b`: more votes, or as many votes and a
/// case-folded name that comes first.
pub open spec fn outranks(a: EntryView, b: EntryView) -> bool {
    a.times > b.times || (a.times == b.times && lex_lt(fold(a.name), fold(b.name)))
}

/// `a` and `b` are the same entry: equal counts and names equal up to ASCII case.
pub open spec fn same_entry(a: EntryView, b: EntryView) -> bool {
    a.times == b.times && fold(a.name) == fold(b.name)
}

impl View for Entry {
    type V = EntryView;

    closed spec fn view(&self) -> EntryView {
        EntryView { name: self.name@, times: self.times }
    }
}

/// Folds one character.
pub fn fold_char_exec(c: char) -> (r: char)
    ensures
        r == fold_char(c),
{
    if 'A' <= c && c <= 'Z' {
        ((c as u8) + 32u8) as char
    } else {
        c
    }
}

/// How two names compare once folded: `Before` when the first comes first.
#[derive(Clone, Copy, PartialEq, Eq, Structural, Debug)]
pub enum NameOrder {
    Before,
    Same,
    After,
}

/// The order of two names, spelled out.
pub open spec fn name_order(a: Seq<char>, b: Seq<char>) -> NameOrder {
    if lex_lt(fold(a), fold(b)) {
        NameOrder::Before
    } else if fold(a) == fold(b) {
        NameOrder::Same
    } else {
        NameOrder::After
    }
}

/// Folding commutes with dropping the first character.
proof fn lemma_fold_drop_first(s: Seq<char>)
    requires
        s.len() > 0,
    ensures
        fold(s).drop_first() == fold(s.drop_first()),
        fold(s)[0] == fold_char(s[0]),
        fold(s).len() == s.len(),
{
    assert(fold(s).drop_first() =~= fold(s.drop_first()));
}

/// Two non-empty sequences are equal exactly if their heads and their tails are.
proof fn lemma_seq_eq_by_head(a: Seq<char>, b: Seq<char>)
    requires
        a.len() > 0,
        b.len() > 0,
    ensures
        (a == b) <==> (a[0] == b[0] && a.drop_first() == b.drop_first()),
{
    if a[0] == b[0] && a.drop_first() == b.drop_first() {
        assert(a =~= seq![a[0]] + a.drop_first());
        assert(b =~= seq![b[0]] + b.drop_first());
    }
}

/// Compares two names by their folded forms, character by character.
pub fn compare_names(a: &str, b: &str) -> (r: NameOrder)
    ensures
        r == name_order(a@, b@),
{
    let mut ia = a.chars();
    let mut ib = b.chars();
    loop
        invariant
            ia.obeys_prophetic_iter_laws(),
            ib.obeys_prophetic_iter_laws(),
            ia.decrease() is Some,
            name_order(a@, b@) == name_order(ia.remaining(), ib.remaining()),
        decreases ia.decrease()->0,
    {
        let ghost ra = ia.remaining();
        let ghost rb = ib.remaining();
        let ca = ia.next();
        let cb = ib.next();
        match (ca, cb) {
            (None, None) => {
                assert(fold(ra) =~= fold(rb));
                return NameOrder::Same;
            },
            (None, Some(_)) => {
                return NameOrder::Before;
            },
            (Some(_), None) => {
                assert(fold(ra) != fold(rb));
                return NameOrder::After;
            },
            (Some(x), Some(y)) => {
                let fx = fold_char_exec(x);
                let fy = fold_char_exec(y);
                proof {
                    lemma_fold_drop_first(ra);
                    lemma_fold_drop_first(rb);
                    lemma_seq_eq_by_head(fold(ra), fold(rb));
                }
                if fx != fy {
                    if fx < fy {
                        return NameOrder::Before;
                    } else {
                        return NameOrder::After;
                    }
                }
            },
        }
    }
}

/// Folding goes character by character.
pub proof fn lemma_fold_push(s: Seq<char>, c: char)
    ensures
        fold(s.push(c)) == fold(s).push(fold_char(c)),
{
    assert(fold(s.push(c)) =~= fold(s).push(fold_char(c)));
}

/// Folding commutes with dropping the last character.
pub proof fn lemma_fold_drop_last(s: Seq<char>)
    requires
        s.len() > 0,
    ensures
        fold(s.drop_last()) == fold(s).drop_last(),
        fold(s).last() == fold_char(s.last()),
{
    assert(fold(s.drop_last()) =~= fold(s).drop_last());
}

/// Appends one character to a string.
///
/// Stands for `String::push`: the string afterwards is the string before
/// followed by `c`.
#[verifier::external_body]
pub(crate) fn push_char(s: &mut String, c: char)
    ensures
        final(s)@ == old(s)@.push(c),
{
    s.push(c);
}

/// No sequence comes before itself.
pub proof fn lemma_lex_irreflexive(a: Seq<char>)
    ensures
        !lex_lt(a, a),
    decreases a.len(),
{
    if a.len() > 0 {
        lemma_lex_irreflexive(a.drop_first());
    }
}

/// Of two different sequences exactly one comes before the other.
pub proof fn lemma_lex_total(a: Seq<char>, b: Seq<char>)
    ensures
        a != b ==> (lex_lt(a, b) <==> !lex_lt(b, a)),
        a == b ==> !lex_lt(a, b) && !lex_lt(b, a),
    decreases a.len(),
{
    lemma_lex_irreflexive(a);
    if a.len() > 0 && b.len() > 0 {
        lemma_seq_eq_by_head(a, b);
        lemma_lex_total(a.drop_first(), b.drop_first());
    } else if a.len() == 0 && b.len() == 0 {
        assert(a =~= b);
    }
}

/// The lexicographic order is transitive.
pub proof fn lemma_lex_transitive(a: Seq<char>, b: Seq<char>, c: Seq<char>)
    requires
        lex_lt(a, b),
        lex_lt(b, c),
    ensures
        lex_lt(a, c),
    decreases a.len(),
{
    if a.len() > 0 {
        if a[0] == b[0] && b[0] == c[0] {
            lemma_lex_transitive(a.drop_first(), b.drop_first(), c.drop_first());
        }
    }
}

/// Two entries are the same, or exactly one of them outranks the other.
pub proof fn lemma_rank_total(a: EntryView, b: EntryView)
    ensures
        same_entry(a, b) ==> !outranks(a, b) && !outranks(b, a),
        !same_entry(a, b) ==> (outranks(a, b) <==> !outranks(b, a)),
{
    lemma_lex_total(fold(a.name), fold(b.name));
}

/// Ranking is transitive.
pub proof fn lemma_rank_transitive(a: EntryView, b: EntryView, c: EntryView)
    requires
        outranks(a, b),
        outranks(b, c),
    ensures
        outranks(a, c),
{
    if a.times == b.times && b.times == c.times {
        lemma_lex_transitive(fold(a.name), fold(b.name), fold(c.name));
    }
}

impl PartialEq for Entry {
    fn eq(&self, other: &Self) -> (r: bool) {
        self.same(other)
    }
}

impl Eq for Entry {}

impl vstd::std_specs::cmp::PartialEqSpecImpl for Entry {
    open spec fn obeys_eq_spec() -> bool {
        true
    }

    open spec fn eq_spec(&self, other: &Self) -> bool {
        same_entry(self@, other@)
    }
}

impl From<(&str, u64)> for Entry {
    fn from(value: (&str, u64)) -> (e: Entry)
        ensures
            e@ == (EntryView { name: value.0@, times: value.1 }),
    {
        Entry { name: value.0.to_owned(), times: value.1 }
    }
}

// What the conversion yields is stated on `from` itself, over the view: no
// specification can name a `String` by its characters.
impl vstd::std_specs::convert::FromSpecImpl<(&str, u64)> for Entry {
    open spec fn obeys_from_spec() -> bool {
        false
    }

    open spec fn from_spec(value: (&str, u64)) -> Entry {
        arbitrary()
    }
}

impl Clone for Entry {
    fn clone(&self) -> (e: Entry)
        ensures
            e@ == self@,
    {
        Entry { name: self.name.clone(), times: self.times }
    }
}

impl Entry {
    /// Constructs an entry with the given name and count.
    pub fn new(name: String, times: u64) -> (e: Entry)
        ensures
            e@ == (EntryView { name: name@, times }),
    {
        Entry { name, times }
    }

    /// The name, in the casing it was given.
    pub fn get_name(&self) -> (name: &str)
        ensures
            name@ == self@.name,
    {
        self.name.as_str()
    }

    /// The count.
    pub fn get_times(&self) -> (times: &u64)
        ensures
            *times == self@.times,
    {
        &self.times
    }

    /// Mutable access to the count; the name cannot be changed through it.
    pub fn get_times_mut(&mut self) -> (times: &mut u64)
        ensures
            *times == old(self)@.times,
            final(self)@ == (EntryView { name: old(self)@.name, times: *final(times) }),
    {
        &mut self.times
    }

    /// Whether this entry is ranked strictly before `other`.
    pub fn outranks(&self, other: &Entry) -> (r: bool)
        ensures
            r == outranks(self@, other@),
    {
        if self.times != other.times {
            self.times > other.times
        } else {
            compare_names(self.name.as_str(), other.name.as_str()) == NameOrder::Before
        }
    }

    /// Whether both entries are the same: equal counts, and names equal up to
    /// ASCII case.
    pub fn same(&self, other: &Entry) -> (r: bool)
        ensures
            r == same_entry(self@, other@),
    {
        self.times == other.times && self.same_name(other)
    }

    /// Whether both entries carry the same name, whatever the counts and the casing.
    pub fn same_name(&self, other: &Entry) -> (r: bool)
        ensures
            r == (fold(self@.name) == fold(other@.name)),
    {
        proof {
            lemma_lex_irreflexive(fold(self@.name));
        }
        compare_names(self.name.as_str(), other.name.as_str()) == NameOrder::Same
    }
}

} // verus!
