//! The session cookies, one value per name, and the `Cookie` header.
use crate::text::chars_of;
use vstd::prelude::*;
use vstd::string::*;

verus! {

/// Byte order of UTF-8 text, which is the order of its code points.
pub open spec fn name_lt(a: Seq<char>, b: Seq<char>) -> bool
    decreases a.len(),
{
    if a.len() == 0 {
        b.len() > 0
    } else if b.len() == 0 {
        false
    } else if a[0] == b[0] {
        name_lt(a.drop_first(), b.drop_first())
    } else {
        (a[0] as u32) < (b[0] as u32)
    }
}

proof fn lemma_name_lt_irreflexive(a: Seq<char>)
    ensures
        !name_lt(a, a),
    decreases a.len(),
{
    if a.len() > 0 {
        lemma_name_lt_irreflexive(a.drop_first());
    }
}

proof fn lemma_name_lt_total(a: Seq<char>, b: Seq<char>)
    ensures
        a != b ==> name_lt(a, b) || name_lt(b, a),
        !(name_lt(a, b) && name_lt(b, a)),
    decreases a.len(),
{
    if a.len() > 0 && b.len() > 0 {
        lemma_name_lt_total(a.drop_first(), b.drop_first());
        if a[0] == b[0] && a != b {
            assert(a =~= seq![a[0]] + a.drop_first());
            assert(b =~= seq![b[0]] + b.drop_first());
        }
        if a[0] != b[0] {
            vstd::utf8::char_u32_cast(a[0], a[0] as u32);
            vstd::utf8::char_u32_cast(b[0], b[0] as u32);
        }
    } else if a.len() == 0 && b.len() == 0 {
        assert(a =~= b);
    }
}

proof fn lemma_name_lt_transitive(a: Seq<char>, b: Seq<char>, c: Seq<char>)
    requires
        name_lt(a, b),
        name_lt(b, c),
    ensures
        name_lt(a, c),
    decreases a.len(),
{
    if a.len() > 0 && b.len() > 0 && c.len() > 0 && a[0] == b[0] && b[0] == c[0] {
        lemma_name_lt_transitive(a.drop_first(), b.drop_first(), c.drop_first());
    }
}

/// Compare two names in byte order.
pub fn less_than(a: &str, b: &str) -> (r: bool)
    ensures
        r == name_lt(a@, b@),
{
    let x = chars_of(a);
    let y = chars_of(b);
    let mut i: usize = 0;
    proof {
        assert(x@.skip(0) =~= x@);
        assert(y@.skip(0) =~= y@);
    }
    while i < x.len() && i < y.len() && x[i] == y[i]
        invariant
            i <= x@.len(),
            i <= y@.len(),
            name_lt(x@, y@) == name_lt(x@.skip(i as int), y@.skip(i as int)),
        decreases x@.len() - i,
    {
        assert(x@.skip(i as int).drop_first() =~= x@.skip(i + 1));
        assert(y@.skip(i as int).drop_first() =~= y@.skip(i + 1));
        i += 1;
    }
    if i == x.len() {
        i < y.len()
    } else if i == y.len() {
        false
    } else {
        (x[i] as u32) < (y[i] as u32)
    }
}

/// One cookie: its name and its value.
#[derive(Debug)]
pub struct CookieEntry {
    pub name: String,
    pub value: String,
}

impl View for CookieEntry {
    type V = (Seq<char>, Seq<char>);

    open spec fn view(&self) -> (Seq<char>, Seq<char>) {
        (self.name@, self.value@)
    }
}

/// The cookies given by a list of entries, where a later entry of a name
/// replaces an earlier one.
pub open spec fn entries_map(s: Seq<(Seq<char>, Seq<char>)>) -> Map<Seq<char>, Seq<char>>
    decreases s.len(),
{
    if s.len() == 0 {
        Map::empty()
    } else {
        entries_map(s.drop_last()).insert(s.last().0, s.last().1)
    }
}

/// The names of a list of entries are strictly increasing.
pub open spec fn strictly_sorted(s: Seq<(Seq<char>, Seq<char>)>) -> bool {
    forall|i: int, j: int| 0 <= i < j < s.len() ==> name_lt(#[trigger] s[i].0, #[trigger] s[j].0)
}

/// The value of each name of a list of entries.
pub open spec fn pairs_map(s: Seq<(Seq<char>, Seq<char>)>) -> Map<Seq<char>, Seq<char>> {
    Map::new(
        |k: Seq<char>| exists|i: int| 0 <= i < s.len() && s[i].0 == k,
        |k: Seq<char>| s[choose|i: int| 0 <= i < s.len() && s[i].0 == k].1,
    )
}

proof fn lemma_pairs_map_at(s: Seq<(Seq<char>, Seq<char>)>, i: int)
    requires
        strictly_sorted(s),
        0 <= i < s.len(),
    ensures
        pairs_map(s).contains_key(s[i].0),
        pairs_map(s)[s[i].0] == s[i].1,
{
    let k = s[i].0;
    assert(exists|j: int| 0 <= j < s.len() && s[j].0 == k);
    let j = choose|j: int| 0 <= j < s.len() && s[j].0 == k;
    lemma_name_lt_irreflexive(k);
    if j < i {
        assert(name_lt(s[j].0, s[i].0));
    } else if i < j {
        assert(name_lt(s[i].0, s[j].0));
    }
}

/// Sorted entries hold as many entries as names.
proof fn lemma_pairs_map_size(s: Seq<(Seq<char>, Seq<char>)>)
    requires
        strictly_sorted(s),
    ensures
        pairs_map(s).dom().len() == s.len(),
{
    let names = s.map_values(|p: (Seq<char>, Seq<char>)| p.0);
    assert(names.no_duplicates()) by {
        assert forall|i: int, j: int| 0 <= i < names.len() && 0 <= j < names.len() && i != j
            implies names[i] != names[j] by {
            lemma_name_lt_irreflexive(s[i].0);
            if i < j {
                assert(name_lt(s[i].0, s[j].0));
            } else {
                assert(name_lt(s[j].0, s[i].0));
            }
        }
    }
    names.unique_seq_to_set();
    assert forall|k: Seq<char>| #[trigger] pairs_map(s).dom().contains(k) <==> names.to_set().contains(
        k,
    ) by {
        if names.to_set().contains(k) {
            let i = choose|i: int| 0 <= i < names.len() && names[i] == k;
            assert(s[i].0 == k);
        }
        if pairs_map(s).dom().contains(k) {
            let i = choose|i: int| 0 <= i < s.len() && s[i].0 == k;
            assert(names[i] == k);
        }
    }
    assert(pairs_map(s).dom() =~= names.to_set());
}

/// Where a name goes among sorted entries, and what the store becomes.
proof fn lemma_place(
    s: Seq<(Seq<char>, Seq<char>)>,
    i: int,
    p: (Seq<char>, Seq<char>),
    t: Seq<(Seq<char>, Seq<char>)>,
)
    requires
        strictly_sorted(s),
        0 <= i <= s.len(),
        forall|k: int| 0 <= k < i ==> name_lt(#[trigger] s[k].0, p.0),
        i < s.len() ==> s[i].0 == p.0 || name_lt(p.0, s[i].0),
        i < s.len() && s[i].0 == p.0 ==> t == s.update(i, p),
        !(i < s.len() && s[i].0 == p.0) ==> t == s.insert(i, p),
    ensures
        strictly_sorted(t),
        pairs_map(t) == pairs_map(s).insert(p.0, p.1),
{
    let replaced = i < s.len() && s[i].0 == p.0;
    // the index in t of the entry at index j of s, other than the replaced one
    let moved = |j: int|
        if replaced || j < i {
            j
        } else {
            j + 1
        };
    assert forall|j: int| 0 <= j < s.len() && !(replaced && j == i) implies t[moved(j)] == s[j]
        && 0 <= moved(j) < t.len() && moved(j) != i by {}
    assert(t[i] == p);
    assert forall|a: int, b: int| 0 <= a < b < t.len() implies name_lt(
        #[trigger] t[a].0,
        #[trigger] t[b].0,
    ) by {
        if a == i {
            let bb = if replaced { b } else { b - 1 };
            assert(t[b] == s[bb]);
            if bb > i {
                assert(name_lt(s[i].0, s[bb].0));
                if !replaced {
                    lemma_name_lt_transitive(p.0, s[i].0, s[bb].0);
                }
            } else if !replaced {
                assert(bb == i);
            }
        } else if b == i {
            assert(t[a] == s[a]);
        } else {
            let aa = if replaced || a < i { a } else { a - 1 };
            let bb = if replaced || b < i { b } else { b - 1 };
            assert(t[a] == s[aa] && t[b] == s[bb]);
            assert(aa < bb);
        }
    }
    let m = pairs_map(s).insert(p.0, p.1);
    assert forall|k: Seq<char>| #[trigger] pairs_map(t).contains_key(k) <==> m.contains_key(k) by {
        if pairs_map(t).contains_key(k) {
            let j = choose|j: int| 0 <= j < t.len() && t[j].0 == k;
            if j != i {
                let jj = if replaced || j < i { j } else { j - 1 };
                assert(t[j] == s[jj]);
                assert(pairs_map(s).contains_key(k));
            }
        }
        if m.contains_key(k) {
            if k == p.0 {
                assert(t[i].0 == k);
            } else {
                let j = choose|j: int| 0 <= j < s.len() && s[j].0 == k;
                assert(t[moved(j)].0 == k);
            }
        }
    }
    assert forall|k: Seq<char>| #[trigger] m.contains_key(k) implies pairs_map(t)[k] == m[k] by {
        if k == p.0 {
            lemma_pairs_map_at(t, i);
        } else {
            let j = choose|j: int| 0 <= j < s.len() && s[j].0 == k;
            lemma_pairs_map_at(s, j);
            lemma_pairs_map_at(t, moved(j));
        }
    }
    assert(pairs_map(t) =~= m);
}

/// `name=value`.
pub open spec fn pair_text(p: (Seq<char>, Seq<char>)) -> Seq<char> {
    p.0 + seq!['='] + p.1
}

/// The pairs joined by `"; "`.
pub open spec fn header_text(s: Seq<(Seq<char>, Seq<char>)>) -> Seq<char>
    decreases s.len(),
{
    if s.len() == 0 {
        seq![]
    } else if s.len() == 1 {
        pair_text(s[0])
    } else {
        header_text(s.drop_last()) + seq![';', ' '] + pair_text(s.last())
    }
}

/// A set of cookies, one value per name, kept in order of name.
#[derive(Debug)]
pub struct CookieStore {
    entries: Vec<CookieEntry>,
}

impl View for CookieStore {
    type V = Seq<(Seq<char>, Seq<char>)>;

    /// The cookies in order of name.
    closed spec fn view(&self) -> Seq<(Seq<char>, Seq<char>)> {
        self.entries@.map_values(|e: CookieEntry| e@)
    }
}

impl CookieStore {
    /// The names are strictly increasing, so each name comes once.
    #[verifier::type_invariant]
    spec fn wf(&self) -> bool {
        strictly_sorted(self@)
    }

    /// The value of each name.
    pub open spec fn map(&self) -> Map<Seq<char>, Seq<char>> {
        pairs_map(self@)
    }

    /// A store without cookies.
    pub fn new() -> (r: Self)
        ensures
            r@.len() == 0,
            r.map() == Map::<Seq<char>, Seq<char>>::empty(),
    {
        let r = CookieStore { entries: Vec::new() };
        assert(r.map() =~= Map::<Seq<char>, Seq<char>>::empty());
        r
    }

    /// Set the value of a name, replacing the one it had.
    pub fn insert(&mut self, name: String, value: String)
        ensures
            final(self).map() == old(self).map().insert(name@, value@),
    {
        proof {
            use_type_invariant(&*self);
        }
        let ghost s = self@;
        let mut entries: Vec<CookieEntry> = Vec::new();
        std::mem::swap(&mut self.entries, &mut entries);
        assert(entries@.map_values(|e: CookieEntry| e@) == s);
        let n = entries.len();
        let mut i: usize = 0;
        while i < n && less_than(entries[i].name.as_str(), name.as_str())
            invariant
                i <= n == entries@.len(),
                s == entries@.map_values(|e: CookieEntry| e@),
                forall|k: int| 0 <= k < i ==> name_lt(#[trigger] s[k].0, name@),
            decreases n - i,
        {
            i += 1;
        }
        proof {
            if i < n {
                lemma_name_lt_total(s[i as int].0, name@);
            }
        }
        let replaced = i < n && entries[i].name == name;
        if replaced {
            entries.remove(i);
        }
        entries.insert(i, CookieEntry { name, value });
        let ghost t = entries@.map_values(|e: CookieEntry| e@);
        proof {
            let p = (name@, value@);
            if replaced {
                assert(t =~= s.update(i as int, p));
            } else {
                assert(t =~= s.insert(i as int, p));
            }
            lemma_place(s, i as int, p, t);
        }
        self.entries = entries;
    }

    /// The store of a list of entries; where a name comes more than once,
    /// its last entry wins.
    pub fn from_entries(list: Vec<CookieEntry>) -> (r: Self)
        ensures
            r.map() == entries_map(list@.map_values(|e: CookieEntry| e@)),
    {
        let ghost views = list@.map_values(|e: CookieEntry| e@);
        let mut store = CookieStore::new();
        let mut i: usize = 0;
        while i < list.len()
            invariant
                i <= list@.len() == views.len(),
                views == list@.map_values(|e: CookieEntry| e@),
                store.map() == entries_map(views.take(i as int)),
            decreases list@.len() - i,
        {
            assert(views.take(i + 1).drop_last() =~= views.take(i as int));
            assert(views.take(i + 1).last() == list@[i as int]@);
            store.insert(list[i].name.clone(), list[i].value.clone());
            i += 1;
        }
        assert(views.take(i as int) =~= views);
        store
    }

    /// Number of cookies.
    pub fn len(&self) -> (r: usize)
        ensures
            r == self@.len(),
            r == self.map().dom().len(),
    {
        proof {
            use_type_invariant(self);
            lemma_pairs_map_size(self@);
        }
        self.entries.len()
    }

    /// Whether the store holds no cookie.
    pub fn is_empty(&self) -> (r: bool)
        ensures
            r == (self@.len() == 0),
            r <==> self.map().dom().len() == 0,
    {
        proof {
            use_type_invariant(self);
            lemma_pairs_map_size(self@);
        }
        self.entries.len() == 0
    }

    /// The names of the cookies, in byte order.
    pub fn cookie_names(&self) -> (r: Vec<String>)
        ensures
            r@.len() == self@.len(),
            forall|i: int| 0 <= i < r@.len() ==> #[trigger] r@[i]@ == self@[i].0,
            forall|i: int, j: int|
                0 <= i < j < r@.len() ==> name_lt(#[trigger] r@[i]@, #[trigger] r@[j]@),
            forall|k: Seq<char>|
                #[trigger] self.map().contains_key(k) <==> exists|i: int|
                    0 <= i < r@.len() && r@[i]@ == k,
    {
        proof {
            use_type_invariant(self);
        }
        let mut names: Vec<String> = Vec::new();
        let mut i: usize = 0;
        while i < self.entries.len()
            invariant
                i <= self@.len(),
                names@.len() == i,
                forall|k: int| 0 <= k < i ==> #[trigger] names@[k]@ == self@[k].0,
            decreases self@.len() - i,
        {
            names.push(self.entries[i].name.clone());
            i += 1;
        }
        assert forall|k: Seq<char>| #[trigger] self.map().contains_key(k) <==> exists|i: int|
            0 <= i < names@.len() && names@[i]@ == k by {
            if self.map().contains_key(k) {
                let i = choose|i: int| 0 <= i < self@.len() && self@[i].0 == k;
                assert(names@[i]@ == k);
            }
            if exists|i: int| 0 <= i < names@.len() && names@[i]@ == k {
                let i = choose|i: int| 0 <= i < names@.len() && names@[i]@ == k;
                assert(self@[i].0 == k);
            }
        }
        names
    }

    /// The value of a `Cookie` header: `name=value` pairs in order of name,
    /// joined by `"; "`.
    pub fn to_header_value(&self) -> (r: String)
        ensures
            r@ == header_text(self@),
            strictly_sorted(self@),
    {
        proof {
            use_type_invariant(self);
        }
        let mut out = String::new();
        let mut i: usize = 0;
        proof {
            reveal_strlit("; ");
            reveal_strlit("=");
        }
        while i < self.entries.len()
            invariant
                i <= self@.len(),
                out@ == header_text(self@.take(i as int)),
                "; "@ =~= seq![';', ' '],
                "="@ =~= seq!['='],
            decreases self@.len() - i,
        {
            let ghost before = out@;
            if i > 0 {
                out.append("; ");
            }
            let ghost sep = out@;
            let e = &self.entries[i];
            out.append(e.name.as_str());
            out.append("=");
            out.append(e.value.as_str());
            let ghost p = self@[i as int];
            assert(p == e@);
            assert(out@ =~= sep + pair_text(p));
            assert(self@.take(i + 1).drop_last() =~= self@.take(i as int));
            assert(self@.take(i + 1).last() == p);
            if i == 0 {
                assert(out@ =~= pair_text(self@.take(1)[0]));
            } else {
                assert(sep =~= before + seq![';', ' ']);
            }
            i += 1;
        }
        assert(self@.take(i as int) =~= self@);
        out
    }
}


/// One element of a JSON list of cookies: an object, with each field's
/// text when it is a JSON string, a list of items in the same way, or
/// anything else.
#[derive(Debug)]
pub enum CookieJsonItem {
    Object(Vec<(String, Option<String>)>),
    List(Vec<Option<String>>),
    Other,
}

/// A cookie file, as far as its shape matters: an object, with each
/// field's text when it is a JSON string, a list, or anything else.
#[derive(Debug)]
pub enum CookieJson {
    Object(Vec<(String, Option<String>)>),
    List(Vec<CookieJsonItem>),
    Other,
}

/// A cookie file of neither accepted shape.
#[derive(Debug, PartialEq, Eq)]
pub struct CookieFormatError {
    pub message: String,
}

impl CookieFormatError {
    /// The text to show.
    pub fn to_string(&self) -> (r: String)
        ensures
            r@ == self.message@,
    {
        self.message.clone()
    }
}

/// A string item, as text.
pub open spec fn text_view(o: Option<String>) -> Option<Seq<char>> {
    match o {
        Some(t) => Some(t@),
        None => None,
    }
}

/// The fields of an object, as text.
pub open spec fn fields_view(f: Seq<(String, Option<String>)>) -> Seq<(Seq<char>, Option<Seq<char>>)> {
    f.map_values(|p: (String, Option<String>)| (p.0@, text_view(p.1)))
}

/// Every field of an object holds a string.
pub open spec fn all_text(f: Seq<(Seq<char>, Option<Seq<char>>)>) -> bool {
    forall|i: int| 0 <= i < f.len() ==> (#[trigger] f[i]).1 is Some
}

/// The pairs of an object whose fields all hold strings.
pub open spec fn text_pairs(f: Seq<(Seq<char>, Option<Seq<char>>)>) -> Seq<(Seq<char>, Seq<char>)> {
    f.map_values(|p: (Seq<char>, Option<Seq<char>>)| (p.0, p.1->0))
}

/// The first field of this name in an object.
pub open spec fn field(f: Seq<(Seq<char>, Option<Seq<char>>)>, key: Seq<char>) -> Option<
    Option<Seq<char>>,
>
    decreases f.len(),
{
    if f.len() == 0 {
        None
    } else if f[0].0 == key {
        Some(f[0].1)
    } else {
        field(f.drop_first(), key)
    }
}

/// The entry that an element of a list stands for: an object with string
/// fields `name` and `value`, whatever else it holds, or a list of exactly
/// two strings.
pub open spec fn item_entry(v: &CookieJsonItem) -> Option<(Seq<char>, Seq<char>)> {
    match v {
        CookieJsonItem::Object(f) => {
            let f = fields_view(f@);
            match (field(f, "name"@), field(f, "value"@)) {
                (Some(Some(n)), Some(Some(x))) => Some((n, x)),
                _ => None,
            }
        },
        CookieJsonItem::List(items) => if items@.len() == 2 && items@[0] is Some && items@[1] is Some {
            Some((items@[0]->0@, items@[1]->0@))
        } else {
            None
        },
        CookieJsonItem::Other => None,
    }
}

/// The cookies of a file, if it has one of the accepted shapes: an object
/// of strings, or a list whose elements all stand for entries.
pub open spec fn json_cookies(v: &CookieJson) -> Option<Map<Seq<char>, Seq<char>>> {
    match v {
        CookieJson::Object(f) => if all_text(fields_view(f@)) {
            Some(entries_map(text_pairs(fields_view(f@))))
        } else {
            None
        },
        CookieJson::List(items) => if forall|i: int|
            0 <= i < items@.len() ==> item_entry(&#[trigger] items@[i]) is Some {
            Some(
                entries_map(
                    items@.map_values(|it: CookieJsonItem| item_entry(&it)->0),
                ),
            )
        } else {
            None
        },
        CookieJson::Other => None,
    }
}

/// A copy of a string item.
fn copy_text(o: &Option<String>) -> (r: Option<String>)
    ensures
        text_view(r) == text_view(*o),
{
    match o {
        Some(t) => Some(t.clone()),
        None => None,
    }
}

/// The first field of this name in an object.
fn find_field(f: &Vec<(String, Option<String>)>, key: &String) -> (r: Option<Option<String>>)
    ensures
        field(fields_view(f@), key@) == match r {
            Some(o) => Some(text_view(o)),
            None => None,
        },
{
    let mut i: usize = 0;
    assert(fields_view(f@).skip(0) =~= fields_view(f@));
    while i < f.len()
        invariant
            i <= f@.len(),
            field(fields_view(f@), key@) == field(fields_view(f@).skip(i as int), key@),
        decreases f@.len() - i,
    {
        assert(fields_view(f@).skip(i as int).drop_first() =~= fields_view(f@).skip(i + 1));
        assert(fields_view(f@).skip(i as int)[0] == fields_view(f@)[i as int]);
        if f[i].0 == *key {
            return Some(copy_text(&f[i].1));
        }
        i += 1;
    }
    None
}

/// The entry that an element of a list stands for, if any.
pub fn item_entry_of(v: &CookieJsonItem) -> (r: Option<CookieEntry>)
    ensures
        match (r, item_entry(v)) {
            (None, None) => true,
            (Some(e), Some(p)) => e@ == p,
            _ => false,
        },
{
    match v {
        CookieJsonItem::Object(f) => {
            let name_key = "name".to_owned();
            let value_key = "value".to_owned();
            match (find_field(f, &name_key), find_field(f, &value_key)) {
                (Some(Some(n)), Some(Some(x))) => Some(CookieEntry { name: n, value: x }),
                _ => None,
            }
        },
        CookieJsonItem::List(items) => {
            if items.len() == 2 {
                match (&items[0], &items[1]) {
                    (Some(n), Some(x)) => Some(CookieEntry { name: n.clone(), value: x.clone() }),
                    _ => None,
                }
            } else {
                None
            }
        },
        CookieJsonItem::Other => None,
    }
}

/// What a cookie file of neither accepted shape is told.
pub const NOT_A_COOKIE_FILE: &'static str =
    "cookie data did not match any variant: expected a map of name to value, or a list of entries with a name and a value";

impl CookieStore {
    /// The cookies of a file: an object of strings maps names to values; a
    /// list gives one entry per element, and a later entry of a name wins.
    /// Any other shape is refused.
    pub fn from_json(v: &CookieJson) -> (r: Result<CookieStore, CookieFormatError>)
        ensures
            r is Ok <==> json_cookies(v) is Some,
            r matches Ok(s) ==> s.map() == json_cookies(v)->0,
            r matches Err(e) ==> e.message@ == NOT_A_COOKIE_FILE@,
    {
        let mut list: Vec<CookieEntry> = Vec::new();
        match v {
            CookieJson::Object(f) => {
                let ghost fv = fields_view(f@);
                let mut i: usize = 0;
                while i < f.len()
                    invariant
                        fv == fields_view(f@),
                        json_cookies(v) is Some <==> all_text(fv),
                        json_cookies(v) is Some ==> json_cookies(v)->0 == entries_map(
                            text_pairs(fv),
                        ),
                        i <= f@.len(),
                        forall|k: int| 0 <= k < i ==> (#[trigger] fv[k]).1 is Some,
                        list@.map_values(|e: CookieEntry| e@) == text_pairs(fv.take(i as int)),
                    decreases f@.len() - i,
                {
                    let ghost before = list@;
                    assert(fv[i as int] == (f@[i as int].0@, text_view(f@[i as int].1)));
                    assert(fv.take(i + 1) =~= fv.take(i as int).push(fv[i as int]));
                    match &f[i].1 {
                        Some(t) => {
                            list.push(CookieEntry { name: f[i].0.clone(), value: t.clone() });
                            assert(list@ =~= before.push(list@.last()));
                            assert(list@.map_values(|e: CookieEntry| e@) =~= before.map_values(
                                |e: CookieEntry| e@,
                            ).push(list@.last()@));
                            assert(text_pairs(fv.take(i + 1)) =~= text_pairs(fv.take(i as int)).push(
                                (fv[i as int].0, fv[i as int].1->0),
                            ));
                        },
                        None => {
                            assert(fv[i as int].1 is None);
                            assert(!all_text(fv));
                            assert(json_cookies(v) is None);
                            return Err(CookieFormatError { message: NOT_A_COOKIE_FILE.to_owned() });
                        },
                    }
                    i += 1;
                }
                assert(fv.take(i as int) =~= fv);
            },
            CookieJson::List(items) => {
                let ghost want = items@.map_values(|it: CookieJsonItem| item_entry(&it)->0);
                let mut i: usize = 0;
                while i < items.len()
                    invariant
                        want == items@.map_values(|it: CookieJsonItem| item_entry(&it)->0),
                        json_cookies(v) is Some <==> forall|k: int|
                            0 <= k < items@.len() ==> item_entry(&#[trigger] items@[k]) is Some,
                        json_cookies(v) is Some ==> json_cookies(v)->0 == entries_map(want),
                        i <= items@.len(),
                        forall|k: int| 0 <= k < i ==> item_entry(&#[trigger] items@[k]) is Some,
                        list@.map_values(|e: CookieEntry| e@) == want.take(i as int),
                    decreases items@.len() - i,
                {
                    let ghost before = list@;
                    assert(want.take(i + 1) =~= want.take(i as int).push(want[i as int]));
                    match item_entry_of(&items[i]) {
                        Some(e) => {
                            list.push(e);
                            assert(list@ =~= before.push(list@.last()));
                            assert(list@.map_values(|e: CookieEntry| e@) =~= before.map_values(
                                |e: CookieEntry| e@,
                            ).push(list@.last()@));
                        },
                        None => {
                            assert(item_entry(&items@[i as int]) is None);
                            assert(!(forall|k: int|
                                0 <= k < items@.len() ==> item_entry(&#[trigger] items@[k]) is Some));
                            assert(json_cookies(v) is None);
                            return Err(CookieFormatError { message: NOT_A_COOKIE_FILE.to_owned() });
                        },
                    }
                    i += 1;
                }
                assert(want.take(i as int) =~= want);
            },
            CookieJson::Other => {
                return Err(CookieFormatError { message: NOT_A_COOKIE_FILE.to_owned() });
            },
        }
        Ok(CookieStore::from_entries(list))
    }
}

} // verus!
