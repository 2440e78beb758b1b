use vstd::prelude::*;
use crate::bytes::{bytes_eq, lower};

verus! {

/// Mathematical model of a metadata value: a byte-string leaf, a list, or an
/// ordered association from byte-string keys to values.
pub ghost enum Meta {
    Text(Seq<u8>),
    List(Seq<Meta>),
    Dict(Seq<(Seq<u8>, Meta)>),
}

/// A metadata value: a leaf, the repeated occurrences of one key, or a nested block.
/// Text is kept as the bytes found in the input.
#[derive(Debug, PartialEq, Eq)]
pub enum MetadataValue {
    Text(Vec<u8>),
    List(Vec<MetadataValue>),
    Dict(MetadataDict),
}

/// A dictionary that keeps its keys in the order in which they were first inserted.
#[derive(Debug, PartialEq, Eq)]
pub struct MetadataDict {
    pub entries: Vec<(Vec<u8>, MetadataValue)>,
}

/// The dialect of a submission's header.
#[derive(Debug, Clone, Copy, PartialEq, Eq, Structural)]
pub enum SubmissionType {
    DashedDefault,
    TabPrivacy,
    TabDefault,
}

/// Why a submission could not be parsed.
#[derive(Debug, PartialEq, Eq)]
pub enum ParseError {
    /// The first non-empty line begins with none of the dialect markers; holds
    /// at most the first hundred bytes of that line.
    UnknownSubmissionType(Vec<u8>),
    /// The input holds no non-empty line; holds a message that says so.
    InvalidContent(String),
}

/// The model of a metadata value.
pub open spec fn model_of(v: MetadataValue) -> Meta
    decreases v,
{
    match v {
        MetadataValue::Text(t) => Meta::Text(t@),
        MetadataValue::List(l) => Meta::List(
            Seq::new(
                l.len() as nat,
                |i: int|
                    if 0 <= i < l.len() {
                        model_of(l[i])
                    } else {
                        Meta::Text(Seq::empty())
                    },
            ),
        ),
        MetadataValue::Dict(d) => Meta::Dict(
            Seq::new(
                d.entries.len() as nat,
                |i: int|
                    if 0 <= i < d.entries.len() {
                        (d.entries[i].0@, model_of(d.entries[i].1))
                    } else {
                        (Seq::empty(), Meta::Text(Seq::empty()))
                    },
            ),
        ),
    }
}

impl View for MetadataValue {
    type V = Meta;

    open spec fn view(&self) -> Meta {
        model_of(*self)
    }
}

impl View for MetadataDict {
    type V = Seq<(Seq<u8>, Meta)>;

    open spec fn view(&self) -> Seq<(Seq<u8>, Meta)> {
        entries_view(self.entries@)
    }
}

/// The model of a dictionary's entries, in order.
pub open spec fn entries_view(entries: Seq<(Vec<u8>, MetadataValue)>) -> Seq<(Seq<u8>, Meta)> {
    Seq::new(entries.len(), |i: int| (entries[i].0@, entries[i].1@))
}

/// The models of a list's items, in order.
pub open spec fn values_view(items: Seq<MetadataValue>) -> Seq<Meta> {
    Seq::new(items.len(), |i: int| items[i]@)
}

/// The first index at or after `i` whose key is `key`, or the length.
pub open spec fn key_pos(d: Seq<(Seq<u8>, Meta)>, key: Seq<u8>, i: int) -> int
    decreases d.len() - i,
{
    if 0 <= i < d.len() {
        if d[i].0 == key {
            i
        } else {
            key_pos(d, key, i + 1)
        }
    } else {
        d.len() as int
    }
}

/// The dictionary has an entry under `key`.
pub open spec fn dict_contains(d: Seq<(Seq<u8>, Meta)>, key: Seq<u8>) -> bool {
    key_pos(d, key, 0) < d.len()
}

/// The value under `key`, if there is one.
pub open spec fn dict_get(d: Seq<(Seq<u8>, Meta)>, key: Seq<u8>) -> Option<Meta> {
    if dict_contains(d, key) {
        Some(d[key_pos(d, key, 0)].1)
    } else {
        None
    }
}

/// The keys of a dictionary, in order.
pub open spec fn dict_keys(d: Seq<(Seq<u8>, Meta)>) -> Seq<Seq<u8>> {
    Seq::new(d.len(), |i: int| d[i].0)
}

/// What a value becomes when another one arrives under its key: a list grows
/// by the new value, anything else becomes a list of the two.
pub open spec fn promote(existing: Meta, value: Meta) -> Meta {
    match existing {
        Meta::List(items) => Meta::List(items.push(value)),
        _ => Meta::List(seq![existing, value]),
    }
}

/// Insert-or-promote: a new key is appended; under a key that is present the
/// value is merged into a list, at the key's place.
pub open spec fn dict_insert(d: Seq<(Seq<u8>, Meta)>, key: Seq<u8>, value: Meta) -> Seq<
    (Seq<u8>, Meta),
> {
    let i = key_pos(d, key, 0);
    if i < d.len() {
        d.update(i, (key, promote(d[i].1, value)))
    } else {
        d.push((key, value))
    }
}

/// Insert-or-replace: a new key is appended; under a key that is present the
/// value is replaced, at the key's place.
pub open spec fn dict_set(d: Seq<(Seq<u8>, Meta)>, key: Seq<u8>, value: Meta) -> Seq<
    (Seq<u8>, Meta),
> {
    let i = key_pos(d, key, 0);
    if i < d.len() {
        d.update(i, (key, value))
    } else {
        d.push((key, value))
    }
}

/// The dictionary with `extra` appended to the text under `key`; unchanged
/// where `key` is absent or holds no text.
pub open spec fn dict_append_text(d: Seq<(Seq<u8>, Meta)>, key: Seq<u8>, extra: Seq<u8>) -> Seq<
    (Seq<u8>, Meta),
> {
    let i = key_pos(d, key, 0);
    if i < d.len() {
        match d[i].1 {
            Meta::Text(t) => d.update(i, (key, Meta::Text(t + extra))),
            _ => d,
        }
    } else {
        d
    }
}

/// No key of the dictionary occurs twice.
pub open spec fn distinct_keys(d: Seq<(Seq<u8>, Meta)>) -> bool {
    forall|i: int, j: int| 0 <= i < j < d.len() ==> (#[trigger] d[i]).0 != (#[trigger] d[j]).0
}

/// The byte string holds no ASCII capital.
pub open spec fn is_lowercase(s: Seq<u8>) -> bool {
    forall|i: int| 0 <= i < s.len() ==> !(65 <= #[trigger] s[i] <= 90)
}

/// Every dictionary in the value, at any depth, has distinct keys without ASCII capitals.
pub open spec fn well_formed(m: Meta) -> bool
    decreases m,
{
    match m {
        Meta::Text(_) => true,
        Meta::List(items) => forall|i: int| 0 <= i < items.len() ==> well_formed(#[trigger] items[i]),
        Meta::Dict(d) => dict_well_formed(d),
    }
}

/// The dictionary has distinct keys without ASCII capitals, and so has every
/// dictionary below it.
pub open spec fn dict_well_formed(d: Seq<(Seq<u8>, Meta)>) -> bool
    decreases d,
{
    &&& distinct_keys(d)
    &&& forall|i: int| 0 <= i < d.len() ==> is_lowercase((#[trigger] d[i]).0)
    &&& forall|i: int| 0 <= i < d.len() ==> well_formed((#[trigger] d[i]).1)
}

/// What `key_pos` names: the first entry with the key at or after `i`, if there is one.
pub proof fn lemma_key_pos(d: Seq<(Seq<u8>, Meta)>, key: Seq<u8>, i: int)
    requires
        0 <= i <= d.len(),
    ensures
        i <= key_pos(d, key, i) <= d.len(),
        key_pos(d, key, i) < d.len() ==> d[key_pos(d, key, i)].0 == key,
        forall|k: int| i <= k < key_pos(d, key, i) ==> (#[trigger] d[k]).0 != key,
    decreases d.len() - i,
{
    if i < d.len() && d[i].0 != key {
        lemma_key_pos(d, key, i + 1);
    }
}

/// Lowering a byte string leaves no ASCII capital in it.
pub proof fn lemma_lower_is_lowercase(s: Seq<u8>)
    ensures
        is_lowercase(lower(s)),
{
}

/// The model of a dictionary value is the dictionary's own model.
pub proof fn lemma_dict_value_view(d: MetadataDict)
    ensures
        MetadataValue::Dict(d)@ == Meta::Dict(d@),
{
    assert(MetadataValue::Dict(d)@->Dict_0 =~= d@);
}

/// The model of a list value is the list of its items' models.
pub proof fn lemma_list_value_view(l: Vec<MetadataValue>)
    ensures
        MetadataValue::List(l)@ == Meta::List(values_view(l@)),
{
    assert(MetadataValue::List(l)@->List_0 =~= values_view(l@));
}

impl MetadataDict {
    /// An empty dictionary.
    pub fn new() -> (r: MetadataDict)
        ensures
            r@ == Seq::<(Seq<u8>, Meta)>::empty(),
    {
        let r = MetadataDict { entries: Vec::new() };
        assert(r@ =~= Seq::<(Seq<u8>, Meta)>::empty());
        r
    }

    /// The number of keys.
    pub fn len(&self) -> (r: usize)
        ensures
            r == self@.len(),
    {
        self.entries.len()
    }

    /// The place of `key` among the entries.
    pub fn find(&self, key: &[u8]) -> (r: Option<usize>)
        ensures
            match r {
                Some(i) => i < self@.len() && key_pos(self@, key@, 0) == i,
                None => !dict_contains(self@, key@),
            },
    {
        let mut i: usize = 0;
        while i < self.entries.len()
            invariant
                i <= self.entries.len(),
                key_pos(self@, key@, 0) == key_pos(self@, key@, i as int),
            decreases self.entries.len() - i,
        {
            if bytes_eq(self.entries[i].0.as_slice(), key) {
                return Some(i);
            }
            i += 1;
        }
        None
    }

    /// The value under `key`.
    pub fn get(&self, key: &[u8]) -> (r: Option<&MetadataValue>)
        ensures
            match r {
                Some(v) => dict_get(self@, key@) == Some(v@),
                None => dict_get(self@, key@) is None,
            },
    {
        match self.find(key) {
            Some(i) => Some(&self.entries[i].1),
            None => None,
        }
    }

    /// Inserts a value by the insert-or-promote rule.
    pub fn insert_or_append(&mut self, key: Vec<u8>, value: MetadataValue)
        ensures
            final(self)@ == dict_insert(old(self)@, key@, value@),
    {
        match self.find(key.as_slice()) {
            None => {
                self.entries.push((key, value));
                assert(self@ =~= dict_insert(old(self)@, key@, value@));
            },
            Some(i) => {
                let (k, existing) = self.entries.remove(i);
                let ghost ex = existing@;
                let merged = match existing {
                    MetadataValue::List(mut items) => {
                        let ghost before = items@;
                        proof {
                            lemma_list_value_view(items);
                        }
                        items.push(value);
                        proof {
                            lemma_list_value_view(items);
                            assert(values_view(items@) =~= values_view(before).push(value@));
                        }
                        MetadataValue::List(items)
                    },
                    other => {
                        let mut items: Vec<MetadataValue> = Vec::new();
                        items.push(other);
                        items.push(value);
                        proof {
                            lemma_list_value_view(items);
                            assert(values_view(items@) =~= seq![ex, value@]);
                        }
                        MetadataValue::List(items)
                    },
                };
                assert(merged@ == promote(ex, value@));
                self.entries.insert(i, (k, merged));
                proof {
                    lemma_key_pos(old(self)@, key@, 0);
                }
                assert(self@ =~= dict_insert(old(self)@, key@, value@));
            },
        }
    }

    /// Appends bytes to the text under `key`.
    pub fn append_to_text(&mut self, key: &[u8], extra: &[u8])
        ensures
            final(self)@ == dict_append_text(old(self)@, key@, extra@),
    {
        match self.find(key) {
            None => {},
            Some(i) => {
                let (k, existing) = self.entries.remove(i);
                proof {
                    lemma_key_pos(old(self)@, key@, 0);
                }
                let ghost ex = existing@;
                let merged = match existing {
                    MetadataValue::Text(mut t) => {
                        let ghost before = t@;
                        let mut j: usize = 0;
                        while j < extra.len()
                            invariant
                                j <= extra.len(),
                                t@ == before + extra@.subrange(0, j as int),
                            decreases extra.len() - j,
                        {
                            t.push(extra[j]);
                            assert(extra@.subrange(0, j + 1) =~= extra@.subrange(0, j as int).push(
                                extra@[j as int],
                            ));
                            j += 1;
                        }
                        assert(extra@.subrange(0, j as int) =~= extra@);
                        MetadataValue::Text(t)
                    },
                    other => other,
                };
                self.entries.insert(i, (k, merged));
                assert(self@ =~= dict_append_text(old(self)@, key@, extra@));
            },
        }
    }

    /// Inserts a value, replacing the one that stands under the key.
    pub fn set(&mut self, key: Vec<u8>, value: MetadataValue)
        ensures
            final(self)@ == dict_set(old(self)@, key@, value@),
    {
        match self.find(key.as_slice()) {
            None => {
                self.entries.push((key, value));
                assert(self@ =~= dict_set(old(self)@, key@, value@));
            },
            Some(i) => {
                let (k, _) = self.entries.remove(i);
                self.entries.insert(i, (k, value));
                proof {
                    lemma_key_pos(old(self)@, key@, 0);
                }
                assert(self@ =~= dict_set(old(self)@, key@, value@));
            },
        }
    }
}

impl MetadataValue {
    /// The bytes of a leaf.
    pub fn as_text(&self) -> (r: Option<&Vec<u8>>)
        ensures
            match r {
                Some(t) => self@ == Meta::Text(t@),
                None => !(self@ is Text),
            },
    {
        match self {
            MetadataValue::Text(t) => Some(t),
            _ => None,
        }
    }

    /// The dictionary of a nested block.
    pub fn as_dict(&self) -> (r: Option<&MetadataDict>)
        ensures
            match r {
                Some(d) => self@ == Meta::Dict(d@),
                None => !(self@ is Dict),
            },
    {
        match self {
            MetadataValue::Dict(d) => {
                proof {
                    lemma_dict_value_view(*d);
                }
                Some(d)
            },
            _ => None,
        }
    }

    /// The items of a list.
    pub fn as_list(&self) -> (r: Option<&Vec<MetadataValue>>)
        ensures
            match r {
                Some(l) => self@ == Meta::List(values_view(l@)),
                None => !(self@ is List),
            },
    {
        match self {
            MetadataValue::List(l) => {
                proof {
                    lemma_list_value_view(*l);
                }
                Some(l)
            },
            _ => None,
        }
    }
}

} // verus!
