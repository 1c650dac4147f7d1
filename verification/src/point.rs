use vstd::prelude::*;
use crate::text::{
    decimal, decimal_text, lemma_lex_irreflexive, lemma_lex_total, lemma_lex_transitive, lex_lt,
    text_lt,
};

verus! {

/// The identifier of a point: a number or a text.
#[derive(Debug, PartialEq, Eq)]
pub enum PointId {
    Num(u64),
    Uuid(String),
}

/// What a [`PointId`] stands for.
pub enum PointIdView {
    Num(u64),
    Uuid(Seq<char>),
}

impl View for PointId {
    type V = PointIdView;

    open spec fn view(&self) -> PointIdView {
        match self {
            PointId::Num(n) => PointIdView::Num(*n),
            PointId::Uuid(s) => PointIdView::Uuid(s@),
        }
    }
}

/// The order of identifiers: every number comes before every text, numbers
/// go by size and texts by code point.
pub open spec fn id_lt(a: PointIdView, b: PointIdView) -> bool {
    match (a, b) {
        (PointIdView::Num(x), PointIdView::Num(y)) => x < y,
        (PointIdView::Num(_), PointIdView::Uuid(_)) => true,
        (PointIdView::Uuid(_), PointIdView::Num(_)) => false,
        (PointIdView::Uuid(s), PointIdView::Uuid(t)) => lex_lt(s, t),
    }
}

impl PointId {
    /// Tells whether two identifiers are the same.
    pub fn same(&self, other: &PointId) -> (r: bool)
        ensures
            r == (self@ == other@),
    {
        match (self, other) {
            (PointId::Num(x), PointId::Num(y)) => *x == *y,
            (PointId::Uuid(s), PointId::Uuid(t)) => *s == *t,
            _ => false,
        }
    }

    /// Tells whether `self` comes strictly before `other`.
    pub fn precedes(&self, other: &PointId) -> (r: bool)
        ensures
            r == id_lt(self@, other@),
    {
        match (self, other) {
            (PointId::Num(x), PointId::Num(y)) => *x < *y,
            (PointId::Num(_), PointId::Uuid(_)) => true,
            (PointId::Uuid(_), PointId::Num(_)) => false,
            (PointId::Uuid(s), PointId::Uuid(t)) => text_lt(s.as_str(), t.as_str()),
        }
    }
}

impl Clone for PointId {
    fn clone(&self) -> (r: Self)
        ensures
            r@ == self@,
    {
        match self {
            PointId::Num(n) => PointId::Num(*n),
            PointId::Uuid(s) => PointId::Uuid(s.clone()),
        }
    }
}

/// No identifier comes before itself.
pub proof fn lemma_id_irreflexive(a: PointIdView)
    ensures
        !id_lt(a, a),
{
    if let PointIdView::Uuid(s) = a {
        lemma_lex_irreflexive(s);
    }
}

/// The order of identifiers is transitive.
pub proof fn lemma_id_transitive(a: PointIdView, b: PointIdView, c: PointIdView)
    requires
        id_lt(a, b),
        id_lt(b, c),
    ensures
        id_lt(a, c),
{
    if let (PointIdView::Uuid(s), PointIdView::Uuid(t), PointIdView::Uuid(u)) = (a, b, c) {
        lemma_lex_transitive(s, t, u);
    }
}

/// Of two different identifiers one comes before the other.
pub proof fn lemma_id_total(a: PointIdView, b: PointIdView)
    requires
        a != b,
    ensures
        id_lt(a, b) || id_lt(b, a),
{
    if let (PointIdView::Uuid(s), PointIdView::Uuid(t)) = (a, b) {
        lemma_lex_total(s, t);
    }
}

/// A value stored under a payload key: a text or a scalar.
#[derive(Debug, PartialEq, Eq)]
pub enum PayloadValue {
    Text(String),
    Integer(i64),
    Flag(bool),
}

/// What a [`PayloadValue`] stands for.
pub enum PayloadValueView {
    Text(Seq<char>),
    Integer(i64),
    Flag(bool),
}

impl View for PayloadValue {
    type V = PayloadValueView;

    open spec fn view(&self) -> PayloadValueView {
        match self {
            PayloadValue::Text(s) => PayloadValueView::Text(s@),
            PayloadValue::Integer(n) => PayloadValueView::Integer(*n),
            PayloadValue::Flag(b) => PayloadValueView::Flag(*b),
        }
    }
}

/// A payload value as a text: a text as it is, an integer in decimal
/// notation, and a flag as `true` or `false`.
pub open spec fn value_text(v: PayloadValueView) -> Seq<char> {
    match v {
        PayloadValueView::Text(t) => t,
        PayloadValueView::Integer(n) => decimal(n as int),
        PayloadValueView::Flag(b) => if b {
            "true"@
        } else {
            "false"@
        },
    }
}

impl PayloadValue {
    /// The value as a text.
    pub fn to_text(&self) -> (s: String)
        ensures
            s@ == value_text(self@),
    {
        match self {
            PayloadValue::Text(t) => t.clone(),
            PayloadValue::Integer(n) => decimal_text(*n),
            PayloadValue::Flag(b) => if *b {
                String::from_str("true")
            } else {
                String::from_str("false")
            },
        }
    }
}

impl Clone for PayloadValue {
    fn clone(&self) -> (r: Self)
        ensures
            r@ == self@,
    {
        match self {
            PayloadValue::Text(s) => PayloadValue::Text(s.clone()),
            PayloadValue::Integer(n) => PayloadValue::Integer(*n),
            PayloadValue::Flag(b) => PayloadValue::Flag(*b),
        }
    }
}

/// The mapping that a list of payload entries stands for: of two entries
/// under one key the later one counts.
pub open spec fn entries_map(s: Seq<(Seq<char>, PayloadValueView)>) -> Map<
    Seq<char>,
    PayloadValueView,
>
    decreases s.len(),
{
    if s.len() == 0 {
        Map::empty()
    } else {
        entries_map(s.drop_last()).insert(s.last().0, s.last().1)
    }
}

/// Taking out an entry under `k` changes nothing about the other keys.
proof fn lemma_entries_remove(s: Seq<(Seq<char>, PayloadValueView)>, i: int)
    requires
        0 <= i < s.len(),
    ensures
        entries_map(s.remove(i)).remove(s[i].0) == entries_map(s).remove(s[i].0),
    decreases s.len(),
{
    let k = s[i].0;
    if i == s.len() - 1 {
        assert(s.remove(i) == s.drop_last());
        assert(entries_map(s.drop_last()).insert(k, s.last().1).remove(k) == entries_map(
            s.drop_last(),
        ).remove(k));
    } else {
        let t = s.remove(i);
        assert(t.drop_last() == s.drop_last().remove(i));
        assert(t.last() == s.last());
        lemma_entries_remove(s.drop_last(), i);
        let e = s.last();
        assert(entries_map(t.drop_last()).insert(e.0, e.1).remove(k) == entries_map(
            s.drop_last(),
        ).insert(e.0, e.1).remove(k)) by {
            let a = entries_map(t.drop_last());
            let b = entries_map(s.drop_last());
            assert(a.remove(k) == b.remove(k));
            assert(a.insert(e.0, e.1).remove(k) =~= a.remove(k).insert(e.0, e.1).remove(k));
            assert(b.insert(e.0, e.1).remove(k) =~= b.remove(k).insert(e.0, e.1).remove(k));
        }
    }
}

/// A key that no entry has is not in the mapping.
proof fn lemma_entries_absent(s: Seq<(Seq<char>, PayloadValueView)>, k: Seq<char>)
    requires
        forall|i: int| 0 <= i < s.len() ==> (#[trigger] s[i]).0 != k,
    ensures
        !entries_map(s).contains_key(k),
    decreases s.len(),
{
    if s.len() > 0 {
        assert(s.drop_last().len() == s.len() - 1);
        assert forall|i: int| 0 <= i < s.drop_last().len() implies (#[trigger] s.drop_last()[i]).0
            != k by {
            assert(s.drop_last()[i] == s[i]);
        }
        lemma_entries_absent(s.drop_last(), k);
        assert(s.last() == s[s.len() - 1]);
    }
}

/// Free-form metadata of a point: a mapping from keys to values.
#[derive(Debug)]
pub struct Payload {
    entries: Vec<(String, PayloadValue)>,
}

impl Payload {
    /// The entries as plain values, in the order in which they are kept.
    pub closed spec fn entries(&self) -> Seq<(Seq<char>, PayloadValueView)> {
        self.entries@.map_values(|e: (String, PayloadValue)| (e.0@, e.1@))
    }
}

impl View for Payload {
    type V = Map<Seq<char>, PayloadValueView>;

    closed spec fn view(&self) -> Map<Seq<char>, PayloadValueView> {
        entries_map(self.entries())
    }
}

impl Payload {
    /// The payload without any key.
    pub fn new() -> (p: Payload)
        ensures
            p@ == Map::<Seq<char>, PayloadValueView>::empty(),
    {
        let p = Payload { entries: Vec::new() };
        assert(p.entries() =~= Seq::empty());
        p
    }

    /// Binds `key` to `value`, in place of what it was bound to before.
    pub fn insert(&mut self, key: String, value: PayloadValue)
        ensures
            final(self)@ == old(self)@.insert(key@, value@),
    {
        let mut i: usize = 0;
        while i < self.entries.len()
            invariant
                i <= self.entries.len(),
                self@.remove(key@) == old(self)@.remove(key@),
                forall|j: int| 0 <= j < i ==> (#[trigger] self.entries()[j]).0 != key@,
            decreases self.entries.len() - i,
        {
            if self.entries[i].0 == key {
                proof {
                    lemma_entries_remove(self.entries(), i as int);
                }
                let ghost before = self.entries();
                self.entries.remove(i);
                assert(self.entries() =~= before.remove(i as int));
            } else {
                i = i + 1;
            }
        }
        proof {
            lemma_entries_absent(self.entries(), key@);
        }
        let ghost before = self.entries();
        self.entries.push((key, value));
        assert(self.entries() =~= before.push((key@, value@)));
        assert(self.entries().drop_last() =~= before);
        assert(entries_map(before) =~= entries_map(before).remove(key@));
        assert(old(self)@.remove(key@).insert(key@, value@) =~= old(self)@.insert(key@, value@));
    }

    /// The value bound to `key`, if there is one.
    pub fn get(&self, key: &str) -> (r: Option<&PayloadValue>)
        ensures
            match r {
                Some(v) => self@.contains_key(key@) && self@[key@] == v@,
                None => !self@.contains_key(key@),
            },
    {
        let wanted = String::from_str(key);
        let mut i: usize = self.entries.len();
        assert(self.entries().take(i as int) =~= self.entries());
        while i > 0
            invariant
                i <= self.entries.len(),
                wanted@ == key@,
                self@.contains_key(key@) == entries_map(self.entries().take(i as int)).contains_key(
                    key@,
                ),
                self@.contains_key(key@) ==> self@[key@] == entries_map(
                    self.entries().take(i as int),
                )[key@],
            decreases i,
        {
            let ghost prefix = self.entries().take(i as int);
            assert(prefix.drop_last() =~= self.entries().take(i - 1));
            assert(prefix.last() == self.entries()[i - 1]);
            i = i - 1;
            if self.entries[i].0 == wanted {
                return Some(&self.entries[i].1);
            }
        }
        None
    }
}

impl Clone for Payload {
    fn clone(&self) -> (r: Self)
        ensures
            r@ == self@,
    {
        let mut entries: Vec<(String, PayloadValue)> = Vec::new();
        let mut i: usize = 0;
        while i < self.entries.len()
            invariant
                i <= self.entries.len(),
                entries@.map_values(|e: (String, PayloadValue)| (e.0@, e.1@))
                    == self.entries().take(i as int),
            decreases self.entries.len() - i,
        {
            let key = self.entries[i].0.clone();
            let value = self.entries[i].1.clone();
            let ghost before = entries@.map_values(|e: (String, PayloadValue)| (e.0@, e.1@));
            assert(self.entries()[i as int] == (key@, value@));
            entries.push((key, value));
            i = i + 1;
            assert(entries@.map_values(|e: (String, PayloadValue)| (e.0@, e.1@))
                =~= before.push((key@, value@)));
            assert(self.entries().take(i as int) =~= self.entries().take(i - 1).push(
                self.entries()[i - 1],
            ));
        }
        assert(self.entries().take(i as int) =~= self.entries());
        Payload { entries }
    }
}

/// A record of the store: an identifier, a vector and optional metadata.
///
/// The components of a vector are fixed-point numbers. Whoever quantises
/// a real-valued embedding may choose a scale for each vector by itself:
/// the similarity of two vectors depends on the scale of neither.
#[derive(Debug)]
pub struct Point {
    pub id: PointId,
    pub vector: Vec<i16>,
    pub payload: Option<Payload>,
}

/// What a [`Point`] stands for.
pub struct PointView {
    pub id: PointIdView,
    pub vector: Seq<i16>,
    pub payload: Option<Map<Seq<char>, PayloadValueView>>,
}

impl View for Point {
    type V = PointView;

    open spec fn view(&self) -> PointView {
        PointView {
            id: self.id@,
            vector: self.vector@,
            payload: match self.payload {
                Some(p) => Some(p@),
                None => None,
            },
        }
    }
}

impl Clone for Point {
    fn clone(&self) -> (r: Self)
        ensures
            r@ == self@,
    {
        let payload = match &self.payload {
            Some(p) => Some(p.clone()),
            None => None,
        };
        Point { id: self.id.clone(), vector: copy_vector(&self.vector), payload }
    }
}

/// A copy of a vector.
pub fn copy_vector(v: &Vec<i16>) -> (r: Vec<i16>)
    ensures
        r@ == v@,
{
    let mut out: Vec<i16> = Vec::new();
    let mut i: usize = 0;
    while i < v.len()
        invariant
            i <= v.len(),
            out@ == v@.take(i as int),
        decreases v.len() - i,
    {
        out.push(v[i]);
        i = i + 1;
        assert(out@ == v@.take(i as int));
    }
    assert(v@.take(i as int) == v@);
    out
}

} // verus!
