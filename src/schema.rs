//! The metadata-record schema derived from a game, and its comparison with
//! a schema held remotely.
use crate::game::{key_locales_ascending, loc_ascending, loc_pairs, pairs_ascending, pairs_view, str_lt, Game, Key, KeyType, Localizations};
use vstd::multiset::*;
use vstd::prelude::*;
use vstd::seq_lib::*;

verus! {

/// The kinds of metadata record that Discord knows, with wire codes 1 to 8.
#[derive(Clone, Copy, PartialEq, Eq, Structural, Debug)]
pub enum RoleConnectionMetadataRecordType {
    IntegerLtEq,
    IntegerGtEq,
    IntegerEq,
    IntegerNotEq,
    DatetimeLtEq,
    DatetimeGtEq,
    BoolEq,
    BoolNotEq,
}

impl RoleConnectionMetadataRecordType {
    pub open spec fn spec_code(self) -> u8 {
        match self {
            RoleConnectionMetadataRecordType::IntegerLtEq => 1,
            RoleConnectionMetadataRecordType::IntegerGtEq => 2,
            RoleConnectionMetadataRecordType::IntegerEq => 3,
            RoleConnectionMetadataRecordType::IntegerNotEq => 4,
            RoleConnectionMetadataRecordType::DatetimeLtEq => 5,
            RoleConnectionMetadataRecordType::DatetimeGtEq => 6,
            RoleConnectionMetadataRecordType::BoolEq => 7,
            RoleConnectionMetadataRecordType::BoolNotEq => 8,
        }
    }

    /// The wire code of the kind.
    pub fn code(&self) -> (r: u8)
        ensures
            r == self.spec_code(),
    {
        match self {
            RoleConnectionMetadataRecordType::IntegerLtEq => 1,
            RoleConnectionMetadataRecordType::IntegerGtEq => 2,
            RoleConnectionMetadataRecordType::IntegerEq => 3,
            RoleConnectionMetadataRecordType::IntegerNotEq => 4,
            RoleConnectionMetadataRecordType::DatetimeLtEq => 5,
            RoleConnectionMetadataRecordType::DatetimeGtEq => 6,
            RoleConnectionMetadataRecordType::BoolEq => 7,
            RoleConnectionMetadataRecordType::BoolNotEq => 8,
        }
    }

    /// The kind with wire code `c`, if there is one.
    pub fn from_code(c: u8) -> (r: Option<RoleConnectionMetadataRecordType>)
        ensures
            r is Some <==> 1 <= c <= 8,
            r matches Some(t) ==> t.spec_code() == c,
    {
        match c {
            1 => Some(RoleConnectionMetadataRecordType::IntegerLtEq),
            2 => Some(RoleConnectionMetadataRecordType::IntegerGtEq),
            3 => Some(RoleConnectionMetadataRecordType::IntegerEq),
            4 => Some(RoleConnectionMetadataRecordType::IntegerNotEq),
            5 => Some(RoleConnectionMetadataRecordType::DatetimeLtEq),
            6 => Some(RoleConnectionMetadataRecordType::DatetimeGtEq),
            7 => Some(RoleConnectionMetadataRecordType::BoolEq),
            8 => Some(RoleConnectionMetadataRecordType::BoolNotEq),
            _ => None,
        }
    }
}

/// The Discord-facing description of one metadata key.
#[derive(Clone, PartialEq, Eq, Debug)]
pub struct RoleConnectionMetadataRecord {
    pub ty: RoleConnectionMetadataRecordType,
    pub key: String,
    pub name: String,
    pub name_localizations: Option<Localizations>,
    pub description: String,
    pub description_localizations: Option<Localizations>,
}

/// A record as plain values.
pub struct RecordView {
    pub ty: RoleConnectionMetadataRecordType,
    pub key: Seq<char>,
    pub name: Seq<char>,
    pub name_localizations: Option<Seq<(Seq<char>, Seq<char>)>>,
    pub description: Seq<char>,
    pub description_localizations: Option<Seq<(Seq<char>, Seq<char>)>>,
}

impl View for RoleConnectionMetadataRecord {
    type V = RecordView;

    open spec fn view(&self) -> RecordView {
        RecordView {
            ty: self.ty,
            key: self.key@,
            name: self.name@,
            name_localizations: loc_pairs(self.name_localizations),
            description: self.description@,
            description_localizations: loc_pairs(self.description_localizations),
        }
    }
}

pub open spec fn records_view(v: Seq<RoleConnectionMetadataRecord>) -> Seq<RecordView> {
    v.map_values(|r: RoleConnectionMetadataRecord| r@)
}

/// The record that describes key `id` of a game.
pub open spec fn record_of_key(id: Seq<char>, k: Key) -> RecordView {
    RecordView {
        ty: match k.ty {
            KeyType::BoolEq { .. } => RoleConnectionMetadataRecordType::BoolEq,
        },
        key: id,
        name: k.name@,
        name_localizations: loc_pairs(k.name_localizations),
        description: k.description@,
        description_localizations: loc_pairs(k.description_localizations),
    }
}

/// The schema of a game: one record per key, in the game's key order.
pub open spec fn game_schema(keys: Seq<(String, Key)>) -> Seq<RecordView> {
    keys.map_values(|p: (String, Key)| record_of_key(p.0@, p.1))
}

/// A copy of a localization mapping.
pub fn copy_localizations(l: &Option<Localizations>) -> (r: Option<Localizations>)
    ensures
        loc_pairs(r) == loc_pairs(*l),
{
    match l {
        None => None,
        Some(v) => {
            let mut out: Localizations = Vec::new();
            let mut i: usize = 0;
            while i < v.len()
                invariant
                    i <= v@.len(),
                    pairs_view(out@) =~= pairs_view(v@.subrange(0, i as int)),
                decreases v@.len() - i,
            {
                let ghost before = out@;
                let locale = v[i].0.clone();
                let text = v[i].1.clone();
                out.push((locale, text));
                assert(v@.subrange(0, i + 1) =~= v@.subrange(0, i as int).push(v@[i as int]));
                assert(pairs_view(out@) =~= pairs_view(before).push((v@[i as int].0@, v@[i as int].1@)));
                i = i + 1;
            }
            assert(v@.subrange(0, i as int) =~= v@);
            Some(out)
        },
    }
}

impl Game {
    /// The metadata records that Discord must hold for this game: one per
    /// key, in the game's key order, each of the boolean-equal kind.
    pub fn make_role_connection_records(&self) -> (r: Vec<RoleConnectionMetadataRecord>)
        ensures
            records_view(r@) == game_schema(self.keys@),
            self.well_formed() ==> records_well_formed(records_view(r@)),
    {
        let mut out: Vec<RoleConnectionMetadataRecord> = Vec::new();
        let mut i: usize = 0;
        while i < self.keys.len()
            invariant
                i <= self.keys@.len(),
                records_view(out@) =~= game_schema(self.keys@.subrange(0, i as int)),
            decreases self.keys@.len() - i,
        {
            let k = &self.keys[i].1;
            let ty = match &k.ty {
                KeyType::BoolEq { .. } => RoleConnectionMetadataRecordType::BoolEq,
            };
            let rec = RoleConnectionMetadataRecord {
                ty,
                key: self.keys[i].0.clone(),
                name: k.name.clone(),
                name_localizations: copy_localizations(&k.name_localizations),
                description: k.description.clone(),
                description_localizations: copy_localizations(&k.description_localizations),
            };
            let ghost before = out@;
            out.push(rec);
            assert(rec@ == record_of_key(self.keys@[i as int].0@, self.keys@[i as int].1));
            assert(self.keys@.subrange(0, i + 1) =~= self.keys@.subrange(0, i as int).push(self.keys@[i as int]));
            assert(records_view(out@) =~= records_view(before).push(rec@));
            i = i + 1;
        }
        assert(self.keys@.subrange(0, i as int) =~= self.keys@);
        proof {
            if self.well_formed() {
                assert forall|m: int| 0 <= m < out@.len() implies record_well_formed(#[trigger] records_view(out@)[m]) by {
                    assert(key_locales_ascending(self.keys@[m].1));
                    assert(records_view(out@)[m] == game_schema(self.keys@)[m]);
                }
            }
        }
        out
    }
}

/// Whether `a` comes before `b` in lexicographic order.
pub fn str_less(a: &str, b: &str) -> (r: bool)
    ensures
        r == str_lt(a@, b@),
{
    let la = a.unicode_len();
    let lb = b.unicode_len();
    let mut i: usize = 0;
    assert(a@.skip(0) =~= a@);
    assert(b@.skip(0) =~= b@);
    while i < la && i < lb
        invariant
            i <= la,
            i <= lb,
            la == a@.len(),
            lb == b@.len(),
            str_lt(a@, b@) == str_lt(a@.skip(i as int), b@.skip(i as int)),
        decreases la - i,
    {
        let ca = a.get_char(i);
        let cb = b.get_char(i);
        if ca != cb {
            return (ca as u32) < (cb as u32);
        }
        assert(a@.skip(i as int).drop_first() =~= a@.skip(i + 1));
        assert(b@.skip(i as int).drop_first() =~= b@.skip(i + 1));
        i = i + 1;
    }
    i == la && i < lb
}

/// Inserts `x` into `s` before the first record whose key is greater than
/// `x`'s, so that records of equal key keep their order of arrival.
pub open spec fn insert_by_key(x: RecordView, s: Seq<RecordView>) -> Seq<RecordView>
    decreases s.len(),
{
    if s.len() == 0 {
        seq![x]
    } else if str_lt(x.key, s[0].key) {
        seq![x] + s
    } else {
        seq![s[0]] + insert_by_key(x, s.drop_first())
    }
}

/// Stable sort of records in ascending order of key.
pub open spec fn sort_by_key(s: Seq<RecordView>) -> Seq<RecordView>
    decreases s.len(),
{
    if s.len() == 0 {
        s
    } else {
        insert_by_key(s.last(), sort_by_key(s.drop_last()))
    }
}

proof fn lemma_insert_at(x: RecordView, s: Seq<RecordView>, j: int)
    requires
        0 <= j <= s.len(),
        forall|m: int| 0 <= m < j ==> !str_lt(x.key, #[trigger] s[m].key),
        j < s.len() ==> str_lt(x.key, s[j].key),
    ensures
        insert_by_key(x, s) == s.take(j) + seq![x] + s.skip(j),
    decreases s.len(),
{
    if s.len() == 0 {
        assert(s.take(j) + seq![x] + s.skip(j) =~= seq![x]);
    } else if j == 0 {
        assert(s.take(j) + seq![x] + s.skip(j) =~= seq![x] + s);
    } else {
        let t = s.drop_first();
        assert forall|m: int| 0 <= m < j - 1 implies !str_lt(x.key, #[trigger] t[m].key) by {
            assert(t[m] == s[m + 1]);
        }
        lemma_insert_at(x, t, j - 1);
        assert(s.take(j) + seq![x] + s.skip(j) =~= seq![s[0]] + (t.take(j - 1) + seq![x] + t.skip(j - 1)));
    }
}

/// Sorts records in ascending order of key; records of equal key keep their
/// relative order.
pub fn sort_records(v: Vec<RoleConnectionMetadataRecord>) -> (r: Vec<RoleConnectionMetadataRecord>)
    ensures
        records_view(r@) == sort_by_key(records_view(v@)),
{
    let ghost orig = records_view(v@);
    let mut rest = v;
    let mut out: Vec<RoleConnectionMetadataRecord> = Vec::new();
    let ghost mut k: int = 0;
    while rest.len() > 0
        invariant
            0 <= k <= orig.len(),
            records_view(rest@) =~= orig.skip(k),
            records_view(out@) == sort_by_key(orig.take(k)),
        decreases rest@.len(),
    {
        let ghost old_rest = rest@;
        assert(records_view(old_rest).len() == old_rest.len());
        let x = rest.remove(0);
        assert(records_view(old_rest)[0] == x@);
        assert(x@ == orig[k]);
        assert(records_view(rest@) =~= orig.skip(k + 1)) by {
            assert forall|m: int| 0 <= m < rest@.len() implies #[trigger] records_view(rest@)[m] == orig.skip(k + 1)[m] by {
                assert(rest@[m] == old_rest[m + 1]);
                assert(records_view(old_rest)[m + 1] == orig.skip(k)[m + 1]);
            }
        }
        let mut j: usize = 0;
        let mut found = false;
        while j < out.len() && !found
            invariant
                j <= out@.len(),
                forall|m: int| 0 <= m < j ==> !str_lt(x@.key, #[trigger] out@[m]@.key),
                found ==> j < out@.len() && str_lt(x@.key, out@[j as int]@.key),
            decreases out@.len() - j, if found { 0int } else { 1int },
        {
            if str_less(x.key.as_str(), out[j].key.as_str()) {
                found = true;
            } else {
                j = j + 1;
            }
        }
        let ghost before = records_view(out@);
        proof {
            assert forall|m: int| 0 <= m < j implies !str_lt(x@.key, #[trigger] before[m].key) by {
                assert(before[m] == out@[m]@);
            }
            lemma_insert_at(x@, before, j as int);
            assert(orig.take(k + 1).drop_last() =~= orig.take(k));
        }
        out.insert(j, x);
        assert(records_view(out@) =~= before.take(j as int) + seq![x@] + before.skip(j as int));
        proof {
            k = k + 1;
        }
    }
    assert(orig.take(k) =~= orig);
    out
}

/// A localization mapping as the set of its locale/text pairs: for one
/// held with each locale once, this is the mapping itself.
pub open spec fn loc_set(l: Option<Seq<(Seq<char>, Seq<char>)>>) -> Option<Set<(Seq<char>, Seq<char>)>> {
    match l {
        None => None,
        Some(p) => Some(p.to_set()),
    }
}

/// Both localization mappings of a record are in ascending order of locale.
pub open spec fn record_well_formed(x: RecordView) -> bool {
    loc_ascending(x.name_localizations) && loc_ascending(x.description_localizations)
}

pub open spec fn records_well_formed(s: Seq<RecordView>) -> bool {
    forall|i: int| 0 <= i < s.len() ==> record_well_formed(#[trigger] s[i])
}

/// Two records are equal in every field, localizations compared as mappings.
pub open spec fn records_agree(x: RecordView, y: RecordView) -> bool {
    &&& x.ty == y.ty
    &&& x.key == y.key
    &&& x.name == y.name
    &&& loc_set(x.name_localizations) == loc_set(y.name_localizations)
    &&& x.description == y.description
    &&& loc_set(x.description_localizations) == loc_set(y.description_localizations)
}

/// Two record lists are of one length and agree element by element.
pub open spec fn lists_agree(a: Seq<RecordView>, b: Seq<RecordView>) -> bool {
    a.len() == b.len() && forall|i: int| 0 <= i < a.len() ==> records_agree(#[trigger] a[i], b[i])
}

/// Two schemas agree: sorted by key, they are equal field by field.
pub open spec fn schemas_match(remote: Seq<RecordView>, local: Seq<RecordView>) -> bool {
    lists_agree(sort_by_key(remote), sort_by_key(local))
}

/// The elements of `s` strictly ascend by `key`.
pub open spec fn ascending_by<A>(s: Seq<A>, key: spec_fn(A) -> Seq<char>) -> bool {
    forall|i: int, j: int| 0 <= i < j < s.len() ==> str_lt(key(#[trigger] s[i]), key(#[trigger] s[j]))
}

/// Two lists, each strictly ascending by `key`, that hold the same elements
/// are the same list.
proof fn lemma_ascending_same_elements<A>(x: Seq<A>, y: Seq<A>, key: spec_fn(A) -> Seq<char>)
    requires
        ascending_by(x, key),
        ascending_by(y, key),
        x.to_set() == y.to_set(),
    ensures
        x == y,
    decreases x.len(),
{
    if x.len() == 0 {
        if y.len() > 0 {
            assert(y.to_set().contains(y[0]));
        }
        assert(x =~= y);
    } else {
        assert(x.to_set().contains(x[0]));
        assert(y.len() > 0);
        assert(y.to_set().contains(y[0]));
        let j = choose|j: int| 0 <= j < y.len() && y[j] == x[0];
        let k = choose|k: int| 0 <= k < x.len() && x[k] == y[0];
        if j > 0 {
            if k > 0 {
                lemma_str_lt_transitive(key(y[0]), key(x[0]), key(y[0]));
            }
            lemma_str_lt_irreflexive(key(y[0]));
        }
        assert(x[0] == y[0]);
        let tx = x.drop_first();
        let ty = y.drop_first();
        assert(ascending_by(tx, key)) by {
            assert forall|a: int, b: int| 0 <= a < b < tx.len() implies str_lt(key(#[trigger] tx[a]), key(#[trigger] tx[b])) by {
                assert(tx[a] == x[a + 1] && tx[b] == x[b + 1]);
            }
        }
        assert(ascending_by(ty, key)) by {
            assert forall|a: int, b: int| 0 <= a < b < ty.len() implies str_lt(key(#[trigger] ty[a]), key(#[trigger] ty[b])) by {
                assert(ty[a] == y[a + 1] && ty[b] == y[b + 1]);
            }
        }
        assert(tx.to_set() =~= ty.to_set()) by {
            assert forall|e: A| tx.contains(e) implies ty.contains(e) by {
                let m = choose|m: int| 0 <= m < tx.len() && tx[m] == e;
                assert(x[m + 1] == e);
                assert(x.to_set().contains(e));
                let n = choose|n: int| 0 <= n < y.len() && y[n] == e;
                if n == 0 {
                    lemma_str_lt_irreflexive(key(x[0]));
                    assert(str_lt(key(x[0]), key(x[m + 1])));
                }
                assert(ty[n - 1] == e);
            }
            assert forall|e: A| ty.contains(e) implies tx.contains(e) by {
                let m = choose|m: int| 0 <= m < ty.len() && ty[m] == e;
                assert(y[m + 1] == e);
                assert(y.to_set().contains(e));
                let n = choose|n: int| 0 <= n < x.len() && x[n] == e;
                if n == 0 {
                    lemma_str_lt_irreflexive(key(y[0]));
                    assert(str_lt(key(y[0]), key(y[m + 1])));
                }
                assert(tx[n - 1] == e);
            }
        }
        lemma_ascending_same_elements(tx, ty, key);
        assert(x =~= seq![x[0]] + tx);
        assert(y =~= seq![y[0]] + ty);
    }
}

/// Two pair lists, each in strictly ascending order of locale, that hold
/// the same pairs are the same list.
proof fn lemma_ascending_same_pairs(x: Seq<(Seq<char>, Seq<char>)>, y: Seq<(Seq<char>, Seq<char>)>)
    requires
        pairs_ascending(x),
        pairs_ascending(y),
        x.to_set() == y.to_set(),
    ensures
        x == y,
{
    let locale = |p: (Seq<char>, Seq<char>)| p.0;
    assert(ascending_by(x, locale)) by {
        assert forall|i: int, j: int| 0 <= i < j < x.len() implies str_lt(locale(#[trigger] x[i]), locale(#[trigger] x[j])) by {
            assert(str_lt(x[i].0, x[j].0));
        }
    }
    assert(ascending_by(y, locale)) by {
        assert forall|i: int, j: int| 0 <= i < j < y.len() implies str_lt(locale(#[trigger] y[i]), locale(#[trigger] y[j])) by {
            assert(str_lt(y[i].0, y[j].0));
        }
    }
    lemma_ascending_same_elements(x, y, locale);
}

/// Whether two localization mappings are equal, absent and empty differing.
pub fn localizations_equal(a: &Option<Localizations>, b: &Option<Localizations>) -> (r: bool)
    requires
        loc_ascending(loc_pairs(*a)),
        loc_ascending(loc_pairs(*b)),
    ensures
        r == (loc_set(loc_pairs(*a)) == loc_set(loc_pairs(*b))),
{
    match (a, b) {
        (None, None) => true,
        (Some(x), Some(y)) => {
            let ghost px = pairs_view(x@);
            let ghost py = pairs_view(y@);
            if x.len() != y.len() {
                proof {
                    if px.to_set() == py.to_set() {
                        lemma_ascending_same_pairs(px, py);
                    }
                }
                return false;
            }
            let mut i: usize = 0;
            while i < x.len()
                invariant
                    i <= x@.len(),
                    x@.len() == y@.len(),
                    *a == Some(*x),
                    *b == Some(*y),
                    px == pairs_view(x@),
                    py == pairs_view(y@),
                    pairs_ascending(px),
                    pairs_ascending(py),
                    forall|m: int| 0 <= m < i ==> (#[trigger] px[m]) == py[m],
                decreases x@.len() - i,
            {
                if !(x[i].0 == y[i].0) || !(x[i].1 == y[i].1) {
                    assert(px[i as int] != py[i as int]);
                    proof {
                        if px.to_set() == py.to_set() {
                            lemma_ascending_same_pairs(px, py);
                        }
                    }
                    return false;
                }
                i = i + 1;
            }
            assert(px =~= py);
            true
        },
        _ => false,
    }
}

/// Whether two records are equal in every field, localizations compared
/// as mappings.
pub fn record_equal(a: &RoleConnectionMetadataRecord, b: &RoleConnectionMetadataRecord) -> (r: bool)
    requires
        record_well_formed(a@),
        record_well_formed(b@),
    ensures
        r == records_agree(a@, b@),
{
    a.ty == b.ty && a.key == b.key && a.name == b.name && localizations_equal(
        &a.name_localizations,
        &b.name_localizations,
    ) && a.description == b.description && localizations_equal(
        &a.description_localizations,
        &b.description_localizations,
    )
}

/// Whether two record lists agree element by element.
pub fn records_equal(a: &Vec<RoleConnectionMetadataRecord>, b: &Vec<RoleConnectionMetadataRecord>) -> (r: bool)
    requires
        records_well_formed(records_view(a@)),
        records_well_formed(records_view(b@)),
    ensures
        r == lists_agree(records_view(a@), records_view(b@)),
{
    if a.len() != b.len() {
        return false;
    }
    let mut i: usize = 0;
    while i < a.len()
        invariant
            i <= a@.len(),
            a@.len() == b@.len(),
            records_well_formed(records_view(a@)),
            records_well_formed(records_view(b@)),
            forall|m: int| 0 <= m < i ==> records_agree(#[trigger] records_view(a@)[m], records_view(b@)[m]),
        decreases a@.len() - i,
    {
        assert(records_view(a@)[i as int] == a@[i as int]@);
        assert(records_view(b@)[i as int] == b@[i as int]@);
        if !record_equal(&a[i], &b[i]) {
            return false;
        }
        i = i + 1;
    }
    true
}

proof fn lemma_sort_well_formed(s: Seq<RecordView>)
    requires
        records_well_formed(s),
    ensures
        records_well_formed(sort_by_key(s)),
{
    broadcast use group_to_multiset_ensures;

    lemma_sort_multiset(s);
    let t = sort_by_key(s);
    assert forall|i: int| 0 <= i < t.len() implies record_well_formed(#[trigger] t[i]) by {
        assert(t.to_multiset().count(t[i]) > 0);
        assert(s.contains(t[i]));
    }
}

/// Whether a remote schema and a local one agree, whatever order each came
/// in: both are sorted by key and then compared field by field.
pub fn schemas_equal(remote: Vec<RoleConnectionMetadataRecord>, local: Vec<RoleConnectionMetadataRecord>) -> (r: bool)
    requires
        records_well_formed(records_view(remote@)),
        records_well_formed(records_view(local@)),
    ensures
        r == schemas_match(records_view(remote@), records_view(local@)),
{
    proof {
        lemma_sort_well_formed(records_view(remote@));
        lemma_sort_well_formed(records_view(local@));
    }
    let a = sort_records(remote);
    let b = sort_records(local);
    records_equal(&a, &b)
}

proof fn lemma_str_lt_irreflexive(a: Seq<char>)
    ensures
        !str_lt(a, a),
    decreases a.len(),
{
    if a.len() > 0 {
        lemma_str_lt_irreflexive(a.drop_first());
    }
}

proof fn lemma_str_lt_transitive(a: Seq<char>, b: Seq<char>, c: Seq<char>)
    requires
        str_lt(a, b),
        str_lt(b, c),
    ensures
        str_lt(a, c),
    decreases a.len(),
{
    if a.len() > 0 && a[0] == b[0] && b[0] == c[0] {
        lemma_str_lt_transitive(a.drop_first(), b.drop_first(), c.drop_first());
    }
}

proof fn lemma_str_lt_total(a: Seq<char>, b: Seq<char>)
    requires
        a != b,
    ensures
        str_lt(a, b) || str_lt(b, a),
    decreases a.len(),
{
    if a.len() > 0 && b.len() > 0 && a[0] == b[0] {
        if a.drop_first() == b.drop_first() {
            assert(a =~= seq![a[0]] + a.drop_first());
            assert(b =~= seq![b[0]] + b.drop_first());
        }
        lemma_str_lt_total(a.drop_first(), b.drop_first());
    } else if a.len() == 0 && b.len() == 0 {
        assert(a =~= b);
    } else if a.len() > 0 && b.len() > 0 {
        vstd::utf8::char_u32_cast(a[0], a[0] as u32);
        vstd::utf8::char_u32_cast(b[0], b[0] as u32);
    }
}

/// No two records of `s` share a key.
pub open spec fn keys_unique(s: Seq<RecordView>) -> bool {
    forall|i: int, j: int|
        0 <= i < s.len() && 0 <= j < s.len() && i != j ==> #[trigger] s[i].key != #[trigger] s[j].key
}

/// Keys strictly ascend along `s`.
pub open spec fn strictly_sorted(s: Seq<RecordView>) -> bool {
    forall|i: int, j: int| 0 <= i < j < s.len() ==> str_lt(#[trigger] s[i].key, #[trigger] s[j].key)
}

proof fn lemma_insert_multiset(x: RecordView, s: Seq<RecordView>)
    ensures
        insert_by_key(x, s).to_multiset() =~= s.to_multiset().insert(x),
    decreases s.len(),
{
    broadcast use group_to_multiset_ensures, lemma_multiset_commutative, group_multiset_axioms;

    if s.len() == 0 {
        assert(seq![x] =~= s.push(x));
    } else if str_lt(x.key, s[0].key) {
        assert(s =~= seq![s[0]] + s.drop_first());
    } else {
        lemma_insert_multiset(x, s.drop_first());
        assert(s =~= seq![s[0]] + s.drop_first());
    }
}

proof fn lemma_insert_elements(x: RecordView, s: Seq<RecordView>)
    ensures
        insert_by_key(x, s).len() == s.len() + 1,
        forall|k: int|
            0 <= k < s.len() + 1 ==> #[trigger] insert_by_key(x, s)[k] == x || s.contains(
                insert_by_key(x, s)[k],
            ),
    decreases s.len(),
{
    if s.len() > 0 && !str_lt(x.key, s[0].key) {
        let t = s.drop_first();
        lemma_insert_elements(x, t);
        assert forall|k: int| 0 <= k < s.len() + 1 implies #[trigger] insert_by_key(x, s)[k] == x
            || s.contains(insert_by_key(x, s)[k]) by {
            if k > 0 {
                let e = insert_by_key(x, t)[k - 1];
                if e != x {
                    let m = choose|m: int| 0 <= m < t.len() && t[m] == e;
                    assert(s[m + 1] == e);
                }
            } else {
                assert(s[0] == insert_by_key(x, s)[0]);
            }
        }
    } else if s.len() > 0 {
        assert forall|k: int| 0 <= k < s.len() + 1 implies #[trigger] insert_by_key(x, s)[k] == x
            || s.contains(insert_by_key(x, s)[k]) by {
            if k > 0 {
                assert(s[k - 1] == insert_by_key(x, s)[k]);
            }
        }
    }
}

proof fn lemma_insert_sorted(x: RecordView, s: Seq<RecordView>)
    requires
        strictly_sorted(s),
        forall|m: int| 0 <= m < s.len() ==> (#[trigger] s[m]).key != x.key,
    ensures
        strictly_sorted(insert_by_key(x, s)),
    decreases s.len(),
{
    lemma_insert_elements(x, s);
    if s.len() == 0 {
    } else if str_lt(x.key, s[0].key) {
        let r = insert_by_key(x, s);
        assert forall|i: int, j: int| 0 <= i < j < r.len() implies str_lt(#[trigger] r[i].key, #[trigger] r[j].key) by {
            if i == 0 && j > 1 {
                lemma_str_lt_transitive(x.key, s[0].key, s[j - 1].key);
            }
        }
    } else {
        let t = s.drop_first();
        lemma_str_lt_total(x.key, s[0].key);
        lemma_insert_sorted(x, t);
        lemma_insert_elements(x, t);
        let r = insert_by_key(x, s);
        assert forall|i: int, j: int| 0 <= i < j < r.len() implies str_lt(#[trigger] r[i].key, #[trigger] r[j].key) by {
            if i == 0 {
                let e = insert_by_key(x, t)[j - 1];
                assert(r[j] == e);
                if e != x {
                    let m = choose|m: int| 0 <= m < t.len() && t[m] == e;
                    assert(s[m + 1] == e);
                }
            } else {
                assert(r[i] == insert_by_key(x, t)[i - 1]);
                assert(r[j] == insert_by_key(x, t)[j - 1]);
            }
        }
    }
}

proof fn lemma_sort_multiset(s: Seq<RecordView>)
    ensures
        sort_by_key(s).to_multiset() =~= s.to_multiset(),
    decreases s.len(),
{
    broadcast use group_to_multiset_ensures;

    if s.len() > 0 {
        lemma_sort_multiset(s.drop_last());
        lemma_insert_multiset(s.last(), sort_by_key(s.drop_last()));
        assert(s =~= s.drop_last().push(s.last()));
    }
}

proof fn lemma_sort_sorted(s: Seq<RecordView>)
    requires
        keys_unique(s),
    ensures
        strictly_sorted(sort_by_key(s)),
    decreases s.len(),
{
    broadcast use group_to_multiset_ensures;

    if s.len() > 0 {
        let d = s.drop_last();
        assert(keys_unique(d)) by {
            assert forall|i: int, j: int| 0 <= i < d.len() && 0 <= j < d.len() && i != j implies #[trigger] d[i].key
                != #[trigger] d[j].key by {
                assert(d[i] == s[i] && d[j] == s[j]);
            }
        }
        lemma_sort_sorted(d);
        lemma_sort_multiset(d);
        let sd = sort_by_key(d);
        assert forall|m: int| 0 <= m < sd.len() implies (#[trigger] sd[m]).key != s.last().key by {
            assert(sd.to_multiset().count(sd[m]) > 0);
            assert(d.contains(sd[m]));
            let i = choose|i: int| 0 <= i < d.len() && d[i] == sd[m];
            assert(s[i] == sd[m]);
        }
        lemma_insert_sorted(s.last(), sd);
    }
}

proof fn lemma_sorted_unique_order(r1: Seq<RecordView>, r2: Seq<RecordView>)
    requires
        strictly_sorted(r1),
        strictly_sorted(r2),
        r1.to_multiset() == r2.to_multiset(),
    ensures
        r1 == r2,
    decreases r1.len(),
{
    broadcast use group_to_multiset_ensures;

    assert(r1.len() == r1.to_multiset().len());
    assert(r2.len() == r2.to_multiset().len());
    if r1.len() == 0 {
        assert(r1 =~= r2);
    } else {
        assert(r1.to_multiset().count(r1[0]) > 0);
        assert(r2.contains(r1[0]));
        let j = choose|j: int| 0 <= j < r2.len() && r2[j] == r1[0];
        assert(r2.to_multiset().count(r2[0]) > 0);
        assert(r1.contains(r2[0]));
        let k = choose|k: int| 0 <= k < r1.len() && r1[k] == r2[0];
        if j > 0 {
            if k > 0 {
                lemma_str_lt_transitive(r2[0].key, r1[0].key, r2[0].key);
            }
            lemma_str_lt_irreflexive(r2[0].key);
        }
        assert(r1[0] == r2[0]);
        assert(r1.remove(0) =~= r1.drop_first());
        assert(r2.remove(0) =~= r2.drop_first());
        let t1 = r1.drop_first();
        let t2 = r2.drop_first();
        assert(strictly_sorted(t1)) by {
            assert forall|a: int, b: int| 0 <= a < b < t1.len() implies str_lt(#[trigger] t1[a].key, #[trigger] t1[b].key) by {
                assert(t1[a] == r1[a + 1] && t1[b] == r1[b + 1]);
            }
        }
        assert(strictly_sorted(t2)) by {
            assert forall|a: int, b: int| 0 <= a < b < t2.len() implies str_lt(#[trigger] t2[a].key, #[trigger] t2[b].key) by {
                assert(t2[a] == r2[a + 1] && t2[b] == r2[b + 1]);
            }
        }
        lemma_sorted_unique_order(t1, t2);
        assert(r1 =~= seq![r1[0]] + t1);
        assert(r2 =~= seq![r2[0]] + t2);
    }
}

/// Schema comparison does not depend on order: two schemas, each with
/// unique keys, that hold the same records in any order are equal.
pub proof fn lemma_schemas_match_any_order(a: Seq<RecordView>, b: Seq<RecordView>)
    requires
        keys_unique(a),
        keys_unique(b),
        a.to_multiset() == b.to_multiset(),
    ensures
        schemas_match(a, b),
{
    lemma_sort_multiset(a);
    lemma_sort_multiset(b);
    lemma_sort_sorted(a);
    lemma_sort_sorted(b);
    lemma_sorted_unique_order(sort_by_key(a), sort_by_key(b));
}

/// An absent localization mapping differs from an empty one: two
/// one-record schemas that differ only there do not match.
pub proof fn lemma_absent_localizations_differ_from_empty(x: RecordView)
    requires
        x.name_localizations is None,
    ensures
        !schemas_match(
            seq![x],
            seq![RecordView { name_localizations: Some(Seq::empty()), ..x }],
        ),
{
    let y = RecordView { name_localizations: Some(Seq::empty()), ..x };
    let e = Seq::<RecordView>::empty();
    assert(seq![x].drop_last() =~= e);
    assert(seq![y].drop_last() =~= e);
    assert(sort_by_key(e) == e);
    assert(insert_by_key(x, e) == seq![x]);
    assert(insert_by_key(y, e) == seq![y]);
    assert(sort_by_key(seq![x]) == insert_by_key(x, e));
    assert(sort_by_key(seq![y]) == insert_by_key(y, e));
    assert(sort_by_key(seq![x])[0] != sort_by_key(seq![y])[0]);
}

/// The schema of a well-formed game has no two records with the same key,
/// so the order-independence of schema comparison applies to it.
pub proof fn lemma_game_schema_keys_unique(game: Game)
    requires
        game.well_formed(),
    ensures
        keys_unique(game_schema(game.keys@)),
{
    let keys = game.keys@;
    let s = game_schema(keys);
    assert forall|i: int, j: int| 0 <= i < s.len() && 0 <= j < s.len() && i != j implies #[trigger] s[i].key
        != #[trigger] s[j].key by {
        assert(s[i].key == keys[i].0@ && s[j].key == keys[j].0@);
        if i < j {
            lemma_str_lt_irreflexive(keys[i].0@);
            assert(str_lt(keys[i].0@, keys[j].0@));
        } else {
            lemma_str_lt_irreflexive(keys[j].0@);
            assert(str_lt(keys[j].0@, keys[i].0@));
        }
    }
}

/// Whether the locales of a localization mapping strictly ascend.
pub fn localizations_in_order(l: &Option<Localizations>) -> (r: bool)
    ensures
        r == loc_ascending(loc_pairs(*l)),
{
    match l {
        None => true,
        Some(v) => {
            let ghost p = pairs_view(v@);
            let n = v.len();
            if n == 0 {
                return true;
            }
            let mut i: usize = 1;
            while i < n
                invariant
                    1 <= i <= n,
                    n == v@.len(),
                    p == pairs_view(v@),
                    *l == Some(*v),
                    forall|a: int, b: int| 0 <= a < b < i ==> str_lt(#[trigger] p[a].0, #[trigger] p[b].0),
                decreases n - i,
            {
                if !str_less(v[i - 1].0.as_str(), v[i].0.as_str()) {
                    assert(!str_lt(p[i - 1].0, p[i as int].0));
                    return false;
                }
                proof {
                    assert forall|a: int, b: int| 0 <= a < b < i + 1 implies str_lt(#[trigger] p[a].0, #[trigger] p[b].0) by {
                        if b == i && a < i - 1 {
                            lemma_str_lt_transitive(p[a].0, p[i - 1].0, p[b].0);
                        }
                    }
                }
                i = i + 1;
            }
            true
        },
    }
}

/// Whether both localization mappings of every record are in ascending
/// order of locale, as the comparisons require.
pub fn records_in_order(v: &Vec<RoleConnectionMetadataRecord>) -> (r: bool)
    ensures
        r == records_well_formed(records_view(v@)),
{
    let mut i: usize = 0;
    while i < v.len()
        invariant
            i <= v@.len(),
            forall|m: int| 0 <= m < i ==> record_well_formed(#[trigger] records_view(v@)[m]),
        decreases v@.len() - i,
    {
        assert(records_view(v@)[i as int] == v@[i as int]@);
        if !localizations_in_order(&v[i].name_localizations) || !localizations_in_order(
            &v[i].description_localizations,
        ) {
            assert(!record_well_formed(records_view(v@)[i as int]));
            return false;
        }
        i = i + 1;
    }
    true
}

impl Game {
    /// Whether the key identifiers strictly ascend, so that each is unique,
    /// and every localization mapping is in ascending order of locale.
    pub fn is_well_formed(&self) -> (r: bool)
        ensures
            r == self.well_formed(),
    {
        let n = self.keys.len();
        let mut j: usize = 0;
        while j < n
            invariant
                j <= n,
                n == self.keys@.len(),
                forall|m: int| 0 <= m < j ==> key_locales_ascending(#[trigger] self.keys@[m].1),
            decreases n - j,
        {
            let k = &self.keys[j].1;
            if !localizations_in_order(&k.name_localizations) || !localizations_in_order(&k.description_localizations) {
                assert(!key_locales_ascending(self.keys@[j as int].1));
                return false;
            }
            j = j + 1;
        }
        if n == 0 {
            return true;
        }
        let mut i: usize = 1;
        while i < n
            invariant
                1 <= i <= n,
                n == self.keys@.len(),
                forall|m: int| 0 <= m < n ==> key_locales_ascending(#[trigger] self.keys@[m].1),
                forall|a: int, b: int|
                    0 <= a < b < i ==> str_lt(#[trigger] self.keys@[a].0@, #[trigger] self.keys@[b].0@),
            decreases n - i,
        {
            if !str_less(self.keys[i - 1].0.as_str(), self.keys[i].0.as_str()) {
                return false;
            }
            proof {
                assert forall|a: int, b: int| 0 <= a < b < i + 1 implies str_lt(
                    #[trigger] self.keys@[a].0@,
                    #[trigger] self.keys@[b].0@,
                ) by {
                    if b == i && a < i - 1 {
                        lemma_str_lt_transitive(self.keys@[a].0@, self.keys@[i - 1].0@, self.keys@[b].0@);
                    }
                }
            }
            i = i + 1;
        }
        true
    }
}

/// A game's schema does not depend on the order in which its key entries
/// were gathered: two well-formed games that hold the same key entries
/// derive the same schema.
pub proof fn lemma_schema_independent_of_key_order(g1: Game, g2: Game)
    requires
        g1.well_formed(),
        g2.well_formed(),
        g1.keys@.to_set() == g2.keys@.to_set(),
    ensures
        game_schema(g1.keys@) == game_schema(g2.keys@),
{
    let id = |p: (String, Key)| p.0@;
    assert(ascending_by(g1.keys@, id)) by {
        assert forall|i: int, j: int| 0 <= i < j < g1.keys@.len() implies str_lt(id(#[trigger] g1.keys@[i]), id(#[trigger] g1.keys@[j])) by {
            assert(str_lt(g1.keys@[i].0@, g1.keys@[j].0@));
        }
    }
    assert(ascending_by(g2.keys@, id)) by {
        assert forall|i: int, j: int| 0 <= i < j < g2.keys@.len() implies str_lt(id(#[trigger] g2.keys@[i]), id(#[trigger] g2.keys@[j])) by {
            assert(str_lt(g2.keys@[i].0@, g2.keys@[j].0@));
        }
    }
    lemma_ascending_same_elements(g1.keys@, g2.keys@, id);
}

} // verus!
