//! Layered configuration values and their deep merge.
//!
//! A [`ConfigValue`] holds what a TOML or JSON document holds. Merging an
//! overlay into a base merges tables key by key, appends arrays, and
//! replaces everything else.

use vstd::prelude::*;
use crate::text::str_eq;

verus! {

/// A configuration value: a scalar, an array or a table of named values.
pub enum ConfigValue {
    Null,
    Bool(bool),
    Integer(i64),
    /// A floating-point number, held as its decimal text.
    Float(String),
    /// A date or time, held as its text.
    Datetime(String),
    Text(String),
    Array(Vec<ConfigValue>),
    /// Named values, in order.
    Table(Vec<(String, ConfigValue)>),
}

/// Mathematical view of a [`ConfigValue`].
pub ghost enum ValueView {
    Null,
    Bool(bool),
    Integer(i64),
    Float(Seq<char>),
    Datetime(Seq<char>),
    Text(Seq<char>),
    Array(Seq<ValueView>),
    Table(Seq<(Seq<char>, ValueView)>),
}

impl ConfigValue {
    /// The value's mathematical view.
    pub open spec fn view_of(self) -> ValueView
        decreases self,
    {
        match self {
            ConfigValue::Null => ValueView::Null,
            ConfigValue::Bool(b) => ValueView::Bool(b),
            ConfigValue::Integer(n) => ValueView::Integer(n),
            ConfigValue::Float(s) => ValueView::Float(s@),
            ConfigValue::Datetime(s) => ValueView::Datetime(s@),
            ConfigValue::Text(s) => ValueView::Text(s@),
            ConfigValue::Array(items) => ValueView::Array(Seq::new(
                items@.len(),
                |i: int| if 0 <= i < items@.len() { items@[i].view_of() } else { ValueView::Null },
            )),
            ConfigValue::Table(entries) => ValueView::Table(Seq::new(
                entries@.len(),
                |i: int| if 0 <= i < entries@.len() {
                    (entries@[i].0@, entries@[i].1.view_of())
                } else {
                    (Seq::empty(), ValueView::Null)
                },
            )),
        }
    }
}

impl View for ConfigValue {
    type V = ValueView;

    open spec fn view(&self) -> ValueView {
        self.view_of()
    }
}

/// The views of a table's entries.
pub open spec fn entries_view(t: Seq<(String, ConfigValue)>) -> Seq<(Seq<char>, ValueView)> {
    Seq::new(t.len(), |i: int| (t[i].0@, t[i].1@))
}

/// The views of an array's items.
pub open spec fn items_view(t: Seq<ConfigValue>) -> Seq<ValueView> {
    Seq::new(t.len(), |i: int| t[i]@)
}

/// The index of the first entry named `k`, or the length if there is none.
pub open spec fn key_index(t: Seq<(Seq<char>, ValueView)>, k: Seq<char>) -> int
    decreases t.len(),
{
    if t.len() == 0 {
        0
    } else if t[0].0 == k {
        0
    } else {
        1 + key_index(t.subrange(1, t.len() as int), k)
    }
}

/// Merge overlay `o` into base `b`: tables merge entry by entry, arrays
/// concatenate, and anything else is replaced by the overlay.
pub open spec fn merged(b: ValueView, o: ValueView) -> ValueView
    decreases o, 1int,
{
    match o {
        ValueView::Table(ot) => match b {
            ValueView::Table(bt) => ValueView::Table(merged_table(bt, ot)),
            _ => o,
        },
        ValueView::Array(oa) => match b {
            ValueView::Array(ba) => ValueView::Array(ba + oa),
            _ => o,
        },
        _ => o,
    }
}

/// The overlay's entries merged into `bt` one after another: an entry
/// whose name the table already holds merges into the first such entry,
/// any other is appended.
pub open spec fn merged_table(bt: Seq<(Seq<char>, ValueView)>, ot: Seq<(Seq<char>, ValueView)>) -> Seq<(Seq<char>, ValueView)>
    decreases ot, 0int,
{
    if ot.len() == 0 {
        bt
    } else {
        let acc = merged_table(bt, ot.drop_last());
        let k = ot.last().0;
        let v = ot.last().1;
        let i = key_index(acc, k);
        proof {
            assert(decreases_to!(ot => ot[ot.len() - 1]));
        }
        if i < acc.len() {
            acc.update(i, (k, merged(acc[i].1, v)))
        } else {
            acc.push((k, v))
        }
    }
}

/// An array's view is the views of its items.
proof fn lemma_array_view(items: Vec<ConfigValue>)
    ensures
        ConfigValue::Array(items)@ == ValueView::Array(items_view(items@)),
{
    assert(ConfigValue::Array(items)@->Array_0 =~= items_view(items@));
}

/// A table's view is the views of its entries.
proof fn lemma_table_view(entries: Vec<(String, ConfigValue)>)
    ensures
        ConfigValue::Table(entries)@ == ValueView::Table(entries_view(entries@)),
{
    assert(ConfigValue::Table(entries)@->Table_0 =~= entries_view(entries@));
}

/// `key_index` is the first index whose name is `k`, or the length.
proof fn lemma_key_index(t: Seq<(Seq<char>, ValueView)>, k: Seq<char>, i: int)
    requires
        0 <= i <= t.len(),
        forall|j: int| 0 <= j < i ==> #[trigger] t[j].0 != k,
        i == t.len() || t[i].0 == k,
    ensures
        key_index(t, k) == i,
    decreases t.len(),
{
    if t.len() > 0 && i > 0 {
        let rest = t.subrange(1, t.len() as int);
        assert forall|j: int| 0 <= j < i - 1 implies #[trigger] rest[j].0 != k by {
            assert(rest[j] == t[j + 1]);
        }
        lemma_key_index(rest, k, i - 1);
    }
}

/// The index of the first entry of `t` named `k`, or its length.
fn find_key(t: &Vec<(String, ConfigValue)>, k: &str) -> (r: usize)
    ensures
        r == key_index(entries_view(t@), k@),
        r <= t@.len(),
{
    let n = t.len();
    let mut i: usize = 0;
    while i < n
        invariant
            n == t@.len(),
            i <= n,
            forall|j: int| 0 <= j < i ==> #[trigger] t@[j].0@ != k@,
        decreases n - i,
    {
        if str_eq(t[i].0.as_str(), k) {
            proof {
                lemma_key_index(entries_view(t@), k@, i as int);
            }
            return i;
        }
        i = i + 1;
    }
    proof {
        lemma_key_index(entries_view(t@), k@, n as int);
    }
    n
}

impl ConfigValue {
    /// An independent copy.
    pub fn duplicate(&self) -> (r: Self)
        ensures
            r@ == self@,
        decreases self,
    {
        match self {
            ConfigValue::Null => ConfigValue::Null,
            ConfigValue::Bool(b) => ConfigValue::Bool(*b),
            ConfigValue::Integer(n) => ConfigValue::Integer(*n),
            ConfigValue::Float(s) => ConfigValue::Float(s.clone()),
            ConfigValue::Datetime(s) => ConfigValue::Datetime(s.clone()),
            ConfigValue::Text(s) => ConfigValue::Text(s.clone()),
            ConfigValue::Array(items) => {
                let mut out: Vec<ConfigValue> = Vec::new();
                let n = items.len();
                let mut i: usize = 0;
                while i < n
                    invariant
                        *self == ConfigValue::Array(*items),
                        n == items@.len(),
                        i <= n,
                        out@.len() == i,
                        forall|j: int| 0 <= j < i ==> #[trigger] out@[j]@ == items@[j]@,
                    decreases n - i,
                {
                    proof {
                        assert(decreases_to!(*self => self->Array_0));
                        assert(decreases_to!(*items => items[i as int]));
                        assert(decreases_to!(*self => items[i as int]));
                    }
                    out.push(items[i].duplicate());
                    i = i + 1;
                }
                proof {
                    lemma_array_view(out);
                    lemma_array_view(*items);
                    assert(items_view(out@) =~= items_view(items@));
                }
                ConfigValue::Array(out)
            },
            ConfigValue::Table(entries) => {
                let mut out: Vec<(String, ConfigValue)> = Vec::new();
                let n = entries.len();
                let mut i: usize = 0;
                while i < n
                    invariant
                        *self == ConfigValue::Table(*entries),
                        n == entries@.len(),
                        i <= n,
                        out@.len() == i,
                        forall|j: int| 0 <= j < i ==> #[trigger] out@[j].0@ == entries@[j].0@
                            && out@[j].1@ == entries@[j].1@,
                    decreases n - i,
                {
                    proof {
                        assert(decreases_to!(*self => self->Table_0));
                        assert(decreases_to!(*entries => entries[i as int]));
                        assert(decreases_to!(entries[i as int] => entries[i as int].1));
                        assert(decreases_to!(*self => entries[i as int].1));
                    }
                    let name = entries[i].0.clone();
                    let value = entries[i].1.duplicate();
                    proof {
                        assert(name@ == entries@[i as int].0@);
                        assert(value@ == entries@[i as int].1@);
                    }
                    let ghost prev = out@;
                    out.push((name, value));
                    proof {
                        assert forall|j: int| 0 <= j < i + 1 implies #[trigger] out@[j].0@ == entries@[j].0@
                            && out@[j].1@ == entries@[j].1@ by {
                            if j < i {
                                assert(out@[j] == prev[j]);
                            }
                        }
                    }
                    i = i + 1;
                }
                proof {
                    lemma_table_view(out);
                    lemma_table_view(*entries);
                    assert(entries_view(out@) =~= entries_view(entries@));
                }
                ConfigValue::Table(out)
            },
        }
    }
}

/// `key_index` lies in `0..=len`; below the length it names an entry `k`.
proof fn lemma_key_index_found(t: Seq<(Seq<char>, ValueView)>, k: Seq<char>)
    ensures
        0 <= key_index(t, k) <= t.len(),
        key_index(t, k) < t.len() ==> t[key_index(t, k)].0 == k,
        forall|j: int| 0 <= j < key_index(t, k) ==> #[trigger] t[j].0 != k,
    decreases t.len(),
{
    if t.len() > 0 && t[0].0 != k {
        let rest = t.subrange(1, t.len() as int);
        lemma_key_index_found(rest, k);
        if key_index(rest, k) < rest.len() {
            assert(rest[key_index(rest, k)] == t[key_index(rest, k) + 1]);
        }
        assert forall|j: int| 0 <= j < key_index(t, k) implies #[trigger] t[j].0 != k by {
            if j > 0 {
                assert(t[j] == rest[j - 1]);
            }
        }
    }
}

/// Append copies of `extra` to `items`.
fn append_copies(items: Vec<ConfigValue>, extra: &Vec<ConfigValue>) -> (r: Vec<ConfigValue>)
    ensures
        items_view(r@) == items_view(items@) + items_view(extra@),
{
    let mut out = items;
    let ghost start = out@;
    let n = extra.len();
    let mut i: usize = 0;
    while i < n
        invariant
            n == extra@.len(),
            i <= n,
            items_view(out@) == items_view(start) + items_view(extra@).subrange(0, i as int),
        decreases n - i,
    {
        let ghost prev = out@;
        out.push(extra[i].duplicate());
        proof {
            assert(items_view(out@) =~= items_view(prev).push(extra@[i as int]@));
            assert(items_view(extra@).subrange(0, i + 1) =~= items_view(extra@).subrange(0, i as int).push(extra@[i as int]@));
        }
        i = i + 1;
    }
    assert(items_view(extra@).subrange(0, n as int) =~= items_view(extra@));
    out
}

/// Merge `overlay` into an owned `base`.
fn merge_owned(base: ConfigValue, overlay: &ConfigValue) -> (r: ConfigValue)
    ensures
        r@ == merged(base@, overlay@),
    decreases overlay, 1int,
{
    match overlay {
        ConfigValue::Table(ot) => match base {
            ConfigValue::Table(bt) => {
                proof {
                    lemma_table_view(bt);
                    lemma_table_view(*ot);
                    assert(decreases_to!(*overlay => overlay->Table_0));
                }
                let r = merge_entries(bt, ot);
                proof { lemma_table_view(r); }
                ConfigValue::Table(r)
            },
            _ => overlay.duplicate(),
        },
        ConfigValue::Array(oa) => match base {
            ConfigValue::Array(ba) => {
                proof {
                    lemma_array_view(ba);
                    lemma_array_view(*oa);
                }
                let r = append_copies(ba, oa);
                proof { lemma_array_view(r); }
                ConfigValue::Array(r)
            },
            _ => overlay.duplicate(),
        },
        _ => overlay.duplicate(),
    }
}

/// Merge the overlay entries `ot` one after another into `bt`.
fn merge_entries(bt: Vec<(String, ConfigValue)>, ot: &Vec<(String, ConfigValue)>) -> (r: Vec<(String, ConfigValue)>)
    ensures
        entries_view(r@) == merged_table(entries_view(bt@), entries_view(ot@)),
    decreases ot, 0int,
{
    let mut acc = bt;
    let n = ot.len();
    let mut j: usize = 0;
    assert(entries_view(ot@).subrange(0, 0) =~= Seq::<(Seq<char>, ValueView)>::empty());
    while j < n
        invariant
            n == ot@.len(),
            j <= n,
            entries_view(acc@) == merged_table(entries_view(bt@), entries_view(ot@).subrange(0, j as int)),
        decreases n - j,
    {
        let ghost prev = entries_view(acc@);
        let ghost t = entries_view(ot@).subrange(0, j + 1);
        let ghost k = ot@[j as int].0@;
        proof {
            assert(t.drop_last() =~= entries_view(ot@).subrange(0, j as int));
            assert(t.last() == (k, ot@[j as int].1@));
            lemma_key_index_found(prev, k);
        }
        let i = find_key(&acc, ot[j].0.as_str());
        if i < acc.len() {
            let (name, old) = acc.remove(i);
            proof {
                assert(decreases_to!(*ot => ot[j as int]));
                assert(decreases_to!(ot[j as int] => ot[j as int].1));
                assert(name@ == k);
            }
            let m = merge_owned(old, &ot[j].1);
            acc.insert(i, (name, m));
            proof {
                assert(entries_view(acc@) =~= prev.update(i as int, (k, merged(prev[i as int].1, ot@[j as int].1@))));
            }
        } else {
            let name = ot[j].0.clone();
            let value = ot[j].1.duplicate();
            acc.push((name, value));
            proof {
                assert(entries_view(acc@) =~= prev.push((k, ot@[j as int].1@)));
            }
        }
        j = j + 1;
    }
    assert(entries_view(ot@).subrange(0, n as int) =~= entries_view(ot@));
    acc
}

/// The structural cases a recursive deep merge needs of a value type.
pub trait DeepMerge: Sized {
    /// If `self` and `overlay` are both tables, merge `overlay`'s entries
    /// into `self` recursively and return `true`; otherwise return `false`.
    fn merge_maps(&mut self, overlay: &Self) -> bool;

    /// If `self` and `overlay` are both arrays, append `overlay`'s items to
    /// `self` and return `true`; otherwise return `false`.
    fn extend_arrays(&mut self, overlay: &Self) -> bool;
}

impl DeepMerge for ConfigValue {
    fn merge_maps(&mut self, overlay: &Self) -> (r: bool)
        ensures
            r == (old(self)@ is Table && overlay@ is Table),
            r ==> final(self)@ == merged(old(self)@, overlay@),
            !r ==> *final(self) == *old(self),
    {
        if let ConfigValue::Table(_) = overlay {
            if let ConfigValue::Table(_) = self {
                let mut base = ConfigValue::Null;
                std::mem::swap(&mut base, self);
                *self = merge_owned(base, overlay);
                return true;
            }
        }
        false
    }

    fn extend_arrays(&mut self, overlay: &Self) -> (r: bool)
        ensures
            r == (old(self)@ is Array && overlay@ is Array),
            r ==> final(self)@ == merged(old(self)@, overlay@),
            !r ==> *final(self) == *old(self),
    {
        if let ConfigValue::Array(_) = overlay {
            if let ConfigValue::Array(_) = self {
                let mut base = ConfigValue::Null;
                std::mem::swap(&mut base, self);
                *self = merge_owned(base, overlay);
                return true;
            }
        }
        false
    }
}

/// Merge `overlay` into `base`: tables merge key by key (the overlay wins
/// at the leaves), arrays are extended by the overlay's items, and any
/// other value is replaced by the overlay.
pub fn deep_merge(base: &mut ConfigValue, overlay: &ConfigValue)
    ensures
        final(base)@ == merged(old(base)@, overlay@),
{
    if base.merge_maps(overlay) {
        return;
    }
    if base.extend_arrays(overlay) {
        return;
    }
    *base = overlay.duplicate();
}

/// Some entry of `t` is named `k`.
pub open spec fn has_key(t: Seq<(Seq<char>, ValueView)>, k: Seq<char>) -> bool {
    exists|i: int| 0 <= i < t.len() && #[trigger] t[i].0 == k
}

/// Merging tables keeps every name of the base and adds every name of
/// the overlay, and no other.
pub proof fn law_merged_table_keys(bt: Seq<(Seq<char>, ValueView)>, ot: Seq<(Seq<char>, ValueView)>)
    ensures
        forall|k: Seq<char>| #[trigger] has_key(merged_table(bt, ot), k) <==> (has_key(bt, k) || has_key(ot, k)),
    decreases ot.len(),
{
    if ot.len() > 0 {
        let front = ot.drop_last();
        law_merged_table_keys(bt, front);
        let acc = merged_table(bt, front);
        let k0 = ot.last().0;
        let v0 = ot.last().1;
        let i = key_index(acc, k0);
        lemma_key_index_found(acc, k0);
        let res = merged_table(bt, ot);
        assert forall|k: Seq<char>| #[trigger] has_key(res, k) <==> (has_key(bt, k) || has_key(ot, k)) by {
            if has_key(ot, k) && !has_key(front, k) {
                let j = choose|j: int| 0 <= j < ot.len() && #[trigger] ot[j].0 == k;
                if j < front.len() {
                    assert(front[j].0 == k);
                }
                assert(k == k0);
            }
            if has_key(front, k) {
                let j = choose|j: int| 0 <= j < front.len() && #[trigger] front[j].0 == k;
                assert(ot[j].0 == k);
            }
            if i < acc.len() {
                if has_key(acc, k) {
                    let j = choose|j: int| 0 <= j < acc.len() && #[trigger] acc[j].0 == k;
                    assert(res[j].0 == k);
                }
                if has_key(res, k) {
                    let j = choose|j: int| 0 <= j < res.len() && #[trigger] res[j].0 == k;
                    assert(acc[j].0 == k);
                }
                if k == k0 {
                    assert(acc[i].0 == k);
                }
            } else {
                if has_key(acc, k) {
                    let j = choose|j: int| 0 <= j < acc.len() && #[trigger] acc[j].0 == k;
                    assert(res[j].0 == k);
                }
                if has_key(res, k) {
                    let j = choose|j: int| 0 <= j < res.len() && #[trigger] res[j].0 == k;
                    if j < acc.len() {
                        assert(acc[j].0 == k);
                    }
                }
                if k == k0 {
                    assert(res[acc.len() as int].0 == k);
                }
            }
        }
    }
}

/// Deep merge keeps the base when the overlay is an empty table and the
/// base a table.
pub proof fn law_empty_table_overlay(bt: Seq<(Seq<char>, ValueView)>)
    ensures
        merged(ValueView::Table(bt), ValueView::Table(Seq::empty())) == ValueView::Table(bt),
{
}

/// A scalar overlay replaces any base.
pub proof fn law_scalar_overlay_wins(b: ValueView, o: ValueView)
    requires
        !(o is Table),
        !(o is Array),
    ensures
        merged(b, o) == o,
{
}

/// When the overlay's names are distinct, an overlay entry holding a
/// scalar is what the merged table holds under that name.
pub proof fn law_overlay_leaf_wins(bt: Seq<(Seq<char>, ValueView)>, ot: Seq<(Seq<char>, ValueView)>, j: int)
    requires
        forall|a: int, b: int| 0 <= a < b < ot.len() ==> #[trigger] ot[a].0 != #[trigger] ot[b].0,
        0 <= j < ot.len(),
        !(ot[j].1 is Table),
        !(ot[j].1 is Array),
    ensures
        key_index(merged_table(bt, ot), ot[j].0) < merged_table(bt, ot).len(),
        merged_table(bt, ot)[key_index(merged_table(bt, ot), ot[j].0)].1 == ot[j].1,
    decreases ot.len(),
{
    let k = ot[j].0;
    let front = ot.drop_last();
    let acc = merged_table(bt, front);
    let k1 = ot.last().0;
    let v1 = ot.last().1;
    let i1 = key_index(acc, k1);
    lemma_key_index_found(acc, k1);
    let res = merged_table(bt, ot);
    if j == ot.len() - 1 {
        if i1 < acc.len() {
            assert(res[i1].0 == k);
            assert(res[i1].1 == merged(acc[i1].1, v1));
            law_scalar_overlay_wins(acc[i1].1, v1);
            assert forall|q: int| 0 <= q < i1 implies #[trigger] res[q].0 != k by {
                assert(res[q] == acc[q]);
            }
            lemma_key_index(res, k, i1);
        } else {
            assert(res[acc.len() as int].0 == k);
            assert(res[acc.len() as int].1 == v1);
            assert forall|q: int| 0 <= q < acc.len() implies #[trigger] res[q].0 != k by {
                assert(res[q] == acc[q]);
            }
            lemma_key_index(res, k, acc.len() as int);
        }
    } else {
        assert forall|a: int, b: int| 0 <= a < b < front.len() implies #[trigger] front[a].0 != #[trigger] front[b].0 by {
            assert(ot[a].0 != ot[b].0);
        }
        assert(front[j] == ot[j]);
        law_overlay_leaf_wins(bt, front, j);
        let p = key_index(acc, k);
        lemma_key_index_found(acc, k);
        assert(k != k1) by {
            assert(ot[j].0 != ot[ot.len() - 1].0);
        }
        if i1 < acc.len() {
            assert(i1 != p);
            assert(res[p] == acc[p]);
            assert forall|q: int| 0 <= q < p implies #[trigger] res[q].0 != k by {
                if q == i1 {
                    assert(res[q].0 == k1);
                } else {
                    assert(res[q] == acc[q]);
                }
            }
            lemma_key_index(res, k, p);
        } else {
            assert(res[p] == acc[p]);
            assert forall|q: int| 0 <= q < p implies #[trigger] res[q].0 != k by {
                assert(res[q] == acc[q]);
            }
            lemma_key_index(res, k, p);
        }
    }
}

/// The value of the first entry of `t` named `k`, if any.
pub open spec fn field(t: Seq<(Seq<char>, ValueView)>, k: Seq<char>) -> Option<ValueView> {
    if key_index(t, k) < t.len() {
        Some(t[key_index(t, k)].1)
    } else {
        None
    }
}

impl ConfigValue {
    /// The value of the first entry named `key`, when `self` is a table.
    pub fn get(&self, key: &str) -> (r: Option<&ConfigValue>)
        ensures
            r is Some <==> (self@ is Table && field(self@->Table_0, key@) is Some),
            r matches Some(v) ==> v@ == field(self@->Table_0, key@)->Some_0,
    {
        match self {
            ConfigValue::Table(entries) => {
                proof {
                    lemma_table_view(*entries);
                    lemma_key_index_found(entries_view(entries@), key@);
                }
                let i = find_key(entries, key);
                if i < entries.len() {
                    Some(&entries[i].1)
                } else {
                    None
                }
            },
            _ => None,
        }
    }

    /// The text, when `self` is a string.
    pub fn as_str(&self) -> (r: Option<&str>)
        ensures
            r is Some <==> self@ is Text,
            r matches Some(s) ==> s@ == self@->Text_0,
    {
        match self {
            ConfigValue::Text(s) => Some(s.as_str()),
            _ => None,
        }
    }

    /// The number, when `self` is an integer.
    pub fn as_integer(&self) -> (r: Option<i64>)
        ensures
            r is Some <==> self@ is Integer,
            r matches Some(n) ==> n == self@->Integer_0,
    {
        match self {
            ConfigValue::Integer(n) => Some(*n),
            _ => None,
        }
    }

    /// The flag, when `self` is a boolean.
    pub fn as_bool(&self) -> (r: Option<bool>)
        ensures
            r is Some <==> self@ is Bool,
            r matches Some(b) ==> b == self@->Bool_0,
    {
        match self {
            ConfigValue::Bool(b) => Some(*b),
            _ => None,
        }
    }

    /// The items, when `self` is an array.
    pub fn as_array(&self) -> (r: Option<&Vec<ConfigValue>>)
        ensures
            r is Some <==> self@ is Array,
            r matches Some(v) ==> items_view(v@) == self@->Array_0,
    {
        match self {
            ConfigValue::Array(items) => {
                proof { lemma_array_view(*items); }
                Some(items)
            },
            _ => None,
        }
    }

    /// The entries, when `self` is a table.
    pub fn as_table(&self) -> (r: Option<&Vec<(String, ConfigValue)>>)
        ensures
            r is Some <==> self@ is Table,
            r matches Some(t) ==> entries_view(t@) == self@->Table_0,
    {
        match self {
            ConfigValue::Table(entries) => {
                proof { lemma_table_view(*entries); }
                Some(entries)
            },
            _ => None,
        }
    }
}

/// The value a table holds under `k` after one overlay entry `(k1, v)`
/// merged into `acc`.
proof fn lemma_field_after_entry(acc: Seq<(Seq<char>, ValueView)>, k1: Seq<char>, v: ValueView, k: Seq<char>)
    ensures
        ({
            let i = key_index(acc, k1);
            let res = if i < acc.len() { acc.update(i, (k1, merged(acc[i].1, v))) } else { acc.push((k1, v)) };
            &&& k == k1 ==> field(res, k) == Some(match field(acc, k) {
                Some(b) => merged(b, v),
                None => v,
            })
            &&& k != k1 ==> field(res, k) == field(acc, k)
        }),
{
    let i = key_index(acc, k1);
    lemma_key_index_found(acc, k1);
    lemma_key_index_found(acc, k);
    let res = if i < acc.len() { acc.update(i, (k1, merged(acc[i].1, v))) } else { acc.push((k1, v)) };
    let p = key_index(acc, k);
    if k == k1 {
        if i < acc.len() {
            assert forall|q: int| 0 <= q < i implies #[trigger] res[q].0 != k by {
                assert(res[q] == acc[q]);
            }
            lemma_key_index(res, k, i);
        } else {
            assert forall|q: int| 0 <= q < acc.len() implies #[trigger] res[q].0 != k by {
                assert(res[q] == acc[q]);
            }
            lemma_key_index(res, k, acc.len() as int);
        }
    } else {
        if p < acc.len() {
            assert forall|q: int| 0 <= q < p implies #[trigger] res[q].0 != k by {
                if i < acc.len() && q == i {
                    assert(res[q].0 == k1);
                } else {
                    assert(res[q] == acc[q]);
                }
            }
            if i < acc.len() && p == i {
                assert(acc[i].0 == k1);
            }
            assert(res[p] == acc[p]);
            lemma_key_index(res, k, p);
        } else {
            assert forall|q: int| 0 <= q < res.len() implies #[trigger] res[q].0 != k by {
                if q < acc.len() && !(i < acc.len() && q == i) {
                    assert(res[q] == acc[q]);
                }
            }
            lemma_key_index(res, k, res.len() as int);
        }
    }
}

/// The value a table holds under `k`, read through its last entry.
proof fn lemma_field_last(t: Seq<(Seq<char>, ValueView)>, k: Seq<char>)
    requires
        t.len() > 0,
    ensures
        field(t, k) == match field(t.drop_last(), k) {
            Some(x) => Some(x),
            None => if t.last().0 == k { Some(t.last().1) } else { None },
        },
{
    let front = t.drop_last();
    lemma_key_index_found(front, k);
    let p = key_index(front, k);
    if p < front.len() {
        assert forall|q: int| 0 <= q < p implies #[trigger] t[q].0 != k by {
            assert(t[q] == front[q]);
        }
        assert(t[p] == front[p]);
        lemma_key_index(t, k, p);
    } else if t.last().0 == k {
        assert forall|q: int| 0 <= q < front.len() implies #[trigger] t[q].0 != k by {
            assert(t[q] == front[q]);
        }
        lemma_key_index(t, k, front.len() as int);
    } else {
        assert forall|q: int| 0 <= q < t.len() implies #[trigger] t[q].0 != k by {
            if q < front.len() {
                assert(t[q] == front[q]);
            }
        }
        lemma_key_index(t, k, t.len() as int);
    }
}

/// Merging an overlay table whose names are distinct: a name only the
/// base has keeps its value, a name only the overlay has takes the
/// overlay's value, and a name both have holds the base value deep-merged
/// with the overlay value.
pub proof fn law_merged_table_field(bt: Seq<(Seq<char>, ValueView)>, ot: Seq<(Seq<char>, ValueView)>, k: Seq<char>)
    requires
        forall|a: int, b: int| 0 <= a < b < ot.len() ==> #[trigger] ot[a].0 != #[trigger] ot[b].0,
    ensures
        field(merged_table(bt, ot), k) == match (field(bt, k), field(ot, k)) {
            (Some(b), Some(o)) => Some(merged(b, o)),
            (Some(b), None) => Some(b),
            (None, Some(o)) => Some(o),
            (None, None) => None::<ValueView>,
        },
    decreases ot.len(),
{
    if ot.len() == 0 {
        lemma_key_index_found(ot, k);
    } else {
        let front = ot.drop_last();
        assert forall|a: int, b: int| 0 <= a < b < front.len() implies #[trigger] front[a].0 != #[trigger] front[b].0 by {
            assert(ot[a].0 != ot[b].0);
        }
        law_merged_table_field(bt, front, k);
        let acc = merged_table(bt, front);
        lemma_field_after_entry(acc, ot.last().0, ot.last().1, k);
        lemma_field_last(ot, k);
        if k == ot.last().0 {
            lemma_key_index_found(front, k);
            if key_index(front, k) < front.len() {
                assert(ot[key_index(front, k)].0 != ot[ot.len() - 1].0);
                assert(front[key_index(front, k)] == ot[key_index(front, k)]);
            }
        }
    }
}

} // verus!
