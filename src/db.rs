//! The link table and the operations on it: create, resolve, delete.
use vstd::prelude::*;
use crate::codec::{code_of, encode};

verus! {

/// A link record: the id that the table assigned, the short code, the target.
#[derive(Clone, Debug)]
pub struct Model {
    pub id: Option<u32>,
    pub short: String,
    pub link: String,
}

/// What a record holds, as mathematical values.
pub struct LinkView {
    pub id: Option<u32>,
    pub short: Seq<char>,
    pub link: Seq<char>,
}

impl View for Model {
    type V = LinkView;

    open spec fn view(&self) -> LinkView {
        LinkView { id: self.id, short: self.short@, link: self.link@ }
    }
}

/// Why the table refused a write.
#[derive(Clone, Copy, Debug, PartialEq, Eq, Structural)]
pub enum StoreError {
    /// Every `u32` id has been handed out.
    Exhausted,
    /// A record needs a non-empty short code.
    EmptyShort,
    /// Another record has this short code.
    DuplicateShort,
    /// Another record has this target.
    DuplicateLink,
}

/// The table as mathematical values: its rows, in order of insertion, and
/// the last id handed out (0 before the first).
pub struct StoreView {
    pub rows: Seq<LinkView>,
    pub last: u32,
}

pub open spec fn has_short(rows: Seq<LinkView>, short: Seq<char>) -> bool {
    exists|i: int| 0 <= i < rows.len() && rows[i].short == short
}

pub open spec fn has_link(rows: Seq<LinkView>, link: Seq<char>) -> bool {
    exists|i: int| 0 <= i < rows.len() && rows[i].link == link
}

/// The row with this short code, if there is one.
pub open spec fn find_short(rows: Seq<LinkView>, short: Seq<char>) -> Option<LinkView> {
    if has_short(rows, short) {
        Some(rows[choose|i: int| 0 <= i < rows.len() && rows[i].short == short])
    } else {
        None
    }
}

/// The row with this target, if there is one.
pub open spec fn find_link(rows: Seq<LinkView>, link: Seq<char>) -> Option<LinkView> {
    if has_link(rows, link) {
        Some(rows[choose|i: int| 0 <= i < rows.len() && rows[i].link == link])
    } else {
        None
    }
}

/// The table's invariant: every row has an id no later than the last one
/// handed out and a non-empty code; ids, codes and targets are unique.
pub open spec fn table_wf(s: StoreView) -> bool {
    &&& forall|i: int|
        #![trigger s.rows[i]]
        0 <= i < s.rows.len() ==> {
            &&& s.rows[i].short.len() > 0
            &&& s.rows[i].id is Some
            &&& s.rows[i].id.unwrap() <= s.last
        }
    &&& forall|i: int, j: int|
        0 <= i < s.rows.len() && 0 <= j < s.rows.len() && i != j ==> {
            &&& #[trigger] s.rows[i].short != #[trigger] s.rows[j].short
            &&& s.rows[i].link != s.rows[j].link
            &&& s.rows[i].id != s.rows[j].id
        }
}

/// Why an insert of `(short, link)` fails, if it does.
pub open spec fn insert_error(s: StoreView, short: Seq<char>, link: Seq<char>) -> Option<StoreError> {
    if s.last == u32::MAX {
        Some(StoreError::Exhausted)
    } else if short.len() == 0 {
        Some(StoreError::EmptyShort)
    } else if has_short(s.rows, short) {
        Some(StoreError::DuplicateShort)
    } else if has_link(s.rows, link) {
        Some(StoreError::DuplicateLink)
    } else {
        None
    }
}

/// An insert: the record it returns and the table after it. A new record
/// takes the next id and goes at the end.
pub open spec fn insert_outcome(s: StoreView, short: Seq<char>, link: Seq<char>) -> (
    Result<LinkView, StoreError>,
    StoreView,
) {
    match insert_error(s, short, link) {
        Some(e) => (Err(e), s),
        None => {
            let r = LinkView { id: Some((s.last + 1) as u32), short, link };
            (Ok(r), StoreView { rows: s.rows.push(r), last: (s.last + 1) as u32 })
        },
    }
}

/// A create: the record it returns and the table after it.
///
/// A target already in the table gives its record back, with no change. Else
/// the code is the custom one, or the code of the next id. When that code is
/// taken, a placeholder row whose code and target are both `token` burns one
/// id, and the code of the id after it is used instead.
pub open spec fn create_outcome(
    s: StoreView,
    link: Seq<char>,
    custom: Option<Seq<char>>,
    token: Seq<char>,
) -> (Result<LinkView, StoreError>, StoreView) {
    if has_link(s.rows, link) {
        (Ok(find_link(s.rows, link).unwrap()), s)
    } else if custom is None && s.last == u32::MAX {
        (Err(StoreError::Exhausted), s)
    } else {
        let cand = match custom {
            Some(c) => c,
            None => code_of((s.last + 1) as u32),
        };
        if !has_short(s.rows, cand) {
            insert_outcome(s, cand, link)
        } else {
            let (p, s1) = insert_outcome(s, token, token);
            if p is Err {
                (p, s1)
            } else if s1.last == u32::MAX {
                (Err(StoreError::Exhausted), s1)
            } else {
                insert_outcome(s1, code_of((s1.last + 1) as u32), link)
            }
        }
    }
}

pub open spec fn result_view(r: Result<Model, StoreError>) -> Result<LinkView, StoreError> {
    match r {
        Ok(m) => Ok(m@),
        Err(e) => Err(e),
    }
}

pub open spec fn option_view(o: Option<String>) -> Option<Seq<char>> {
    match o {
        Some(s) => Some(s@),
        None => None,
    }
}

/// The table of links.
pub struct LinkStore {
    rows: Vec<Model>,
    last: u32,
}

impl View for LinkStore {
    type V = StoreView;

    closed spec fn view(&self) -> StoreView {
        StoreView { rows: self.rows@.map_values(|m: Model| m@), last: self.last }
    }
}

impl LinkStore {
    pub open spec fn wf(&self) -> bool {
        table_wf(self@)
    }

    /// An empty table.
    pub fn new() -> (r: LinkStore)
        ensures
            r.wf(),
            r@.rows.len() == 0,
            r@.last == 0,
    {
        let r = LinkStore { rows: Vec::new(), last: 0 };
        assert(r@.rows =~= Seq::<LinkView>::empty());
        r
    }

    /// A table of the given rows, with `last` the last id handed out; `None`
    /// when they break the table's invariant.
    pub fn from_rows(rows: Vec<Model>, last: u32) -> (r: Option<LinkStore>)
        ensures
            match r {
                Some(t) => t.wf() && t@ == StoreView {
                    rows: rows@.map_values(|m: Model| m@),
                    last,
                },
                None => !table_wf(StoreView { rows: rows@.map_values(|m: Model| m@), last }),
            },
    {
        let ghost s = StoreView { rows: rows@.map_values(|m: Model| m@), last };
        let mut i: usize = 0;
        while i < rows.len()
            invariant
                i <= rows.len(),
                s == (StoreView { rows: rows@.map_values(|m: Model| m@), last }),
                forall|a: int|
                    #![trigger s.rows[a]]
                    0 <= a < i ==> {
                        &&& s.rows[a].short.len() > 0
                        &&& s.rows[a].id is Some
                        &&& s.rows[a].id.unwrap() <= s.last
                    },
                forall|a: int, b: int|
                    0 <= a < i && 0 <= b < i && a != b ==> {
                        &&& #[trigger] s.rows[a].short != #[trigger] s.rows[b].short
                        &&& s.rows[a].link != s.rows[b].link
                        &&& s.rows[a].id != s.rows[b].id
                    },
            decreases rows.len() - i,
        {
            let id = match rows[i].id {
                Some(id) => id,
                None => {
                    return None;
                },
            };
            if rows[i].short.as_str().is_empty() || id > last {
                return None;
            }
            let mut j: usize = 0;
            while j < i
                invariant
                    i < rows.len(),
                    j <= i,
                    rows@[i as int].id == Some(id),
                    s == (StoreView { rows: rows@.map_values(|m: Model| m@), last }),
                    forall|a: int|
                        #![trigger s.rows[a]]
                        0 <= a < i ==> {
                            &&& s.rows[a].short.len() > 0
                            &&& s.rows[a].id is Some
                            &&& s.rows[a].id.unwrap() <= s.last
                        },
                    forall|b: int|
                        #![trigger s.rows[b]]
                        0 <= b < j ==> {
                            &&& s.rows[b].short != s.rows[i as int].short
                            &&& s.rows[b].link != s.rows[i as int].link
                            &&& s.rows[b].id != s.rows[i as int].id
                        },
                decreases i - j,
            {
                assert(s.rows[j as int] == rows@[j as int]@);
                let other = rows[j].id.unwrap();
                if rows[j].short == rows[i].short || rows[j].link == rows[i].link || other == id {
                    proof {
                        assert(s.rows[i as int] == rows@[i as int]@);
                    }
                    return None;
                }
                j = j + 1;
            }
            i = i + 1;
        }
        let t = LinkStore { rows, last };
        assert(t@ == s);
        Some(t)
    }

    /// The rows, in order of insertion.
    pub fn records(&self) -> (r: Vec<Model>)
        ensures
            r@.map_values(|m: Model| m@) == self@.rows,
    {
        let mut out: Vec<Model> = Vec::new();
        let mut i: usize = 0;
        while i < self.rows.len()
            invariant
                i <= self.rows.len(),
                out@.len() == i,
                forall|a: int| 0 <= a < i ==> #[trigger] out@[a]@ == self@.rows[a],
            decreases self.rows.len() - i,
        {
            out.push(copy_of(&self.rows[i]));
            i = i + 1;
        }
        assert(out@.map_values(|m: Model| m@) =~= self@.rows);
        out
    }

    /// Position of the row with this code.
    fn position_of_short(&self, short: &String) -> (r: Option<usize>)
        ensures
            match r {
                Some(i) => i < self@.rows.len() && self@.rows[i as int].short == short@,
                None => !has_short(self@.rows, short@),
            },
    {
        let mut i: usize = 0;
        while i < self.rows.len()
            invariant
                i <= self.rows.len(),
                forall|j: int| 0 <= j < i ==> self@.rows[j].short != short@,
            decreases self.rows.len() - i,
        {
            if self.rows[i].short == *short {
                return Some(i);
            }
            i = i + 1;
        }
        None
    }

    /// Position of the row with this target.
    fn position_of_link(&self, link: &String) -> (r: Option<usize>)
        ensures
            match r {
                Some(i) => i < self@.rows.len() && self@.rows[i as int].link == link@,
                None => !has_link(self@.rows, link@),
            },
    {
        let mut i: usize = 0;
        while i < self.rows.len()
            invariant
                i <= self.rows.len(),
                forall|j: int| 0 <= j < i ==> self@.rows[j].link != link@,
            decreases self.rows.len() - i,
        {
            if self.rows[i].link == *link {
                return Some(i);
            }
            i = i + 1;
        }
        None
    }

    /// Adds the record `(short, link)` under the next id, unless the id
    /// space is used up or the code is empty or either value is taken.
    pub fn insert(&mut self, short: String, link: String) -> (r: Result<Model, StoreError>)
        requires
            old(self).wf(),
        ensures
            final(self).wf(),
            (result_view(r), final(self)@) == insert_outcome(old(self)@, short@, link@),
    {
        if self.last == u32::MAX {
            return Err(StoreError::Exhausted);
        }
        if short.as_str().is_empty() {
            return Err(StoreError::EmptyShort);
        }
        if self.position_of_short(&short).is_some() {
            return Err(StoreError::DuplicateShort);
        }
        if self.position_of_link(&link).is_some() {
            return Err(StoreError::DuplicateLink);
        }
        let id = self.last + 1;
        let model = Model { id: Some(id), short: short.clone(), link: link.clone() };
        self.rows.push(Model { id: Some(id), short, link });
        self.last = id;
        proof {
            lemma_insert_wf(old(self)@, model.short@, model.link@);
            assert(self@.rows =~= old(self)@.rows.push(model@));
        }
        Ok(model)
    }
}

/// An insert keeps the table's invariant.
pub proof fn lemma_insert_wf(s: StoreView, short: Seq<char>, link: Seq<char>)
    requires
        table_wf(s),
    ensures
        table_wf(insert_outcome(s, short, link).1),
{
    if insert_error(s, short, link) is None {
        let s1 = insert_outcome(s, short, link).1;
        let n = s.rows.len() as int;
        assert forall|i: int, j: int|
            0 <= i < s1.rows.len() && 0 <= j < s1.rows.len() && i != j implies {
                &&& #[trigger] s1.rows[i].short != #[trigger] s1.rows[j].short
                &&& s1.rows[i].link != s1.rows[j].link
                &&& s1.rows[i].id != s1.rows[j].id
            } by {
            if i == n {
                assert(s1.rows[j] == s.rows[j]);
                assert(s.rows[j].short != short && s.rows[j].link != link);
                assert(s.rows[j].id.unwrap() <= s.last);
            } else if j == n {
                assert(s1.rows[i] == s.rows[i]);
                assert(s.rows[i].short != short && s.rows[i].link != link);
                assert(s.rows[i].id.unwrap() <= s.last);
            } else {
                assert(s1.rows[i] == s.rows[i]);
                assert(s1.rows[j] == s.rows[j]);
            }
        }
    }
}

/// Whether `t` is `s` with the row of code `short` taken out.
pub open spec fn removed(s: StoreView, t: StoreView, short: Seq<char>) -> bool {
    &&& t.last == s.last
    &&& forall|r: LinkView| #[trigger] t.rows.contains(r) <==> (s.rows.contains(r) && r.short != short)
}

pub open spec fn model_option_view(o: Option<Model>) -> Option<LinkView> {
    match o {
        Some(m) => Some(m@),
        None => None,
    }
}

/// In a well-formed table a row is the one found by its code and by its target.
pub proof fn lemma_find_at(s: StoreView, i: int)
    requires
        table_wf(s),
        0 <= i < s.rows.len(),
    ensures
        find_short(s.rows, s.rows[i].short) == Some(s.rows[i]),
        find_link(s.rows, s.rows[i].link) == Some(s.rows[i]),
{
    assert(has_short(s.rows, s.rows[i].short));
    assert(has_link(s.rows, s.rows[i].link));
}

/// Taking out one row keeps the invariant and takes out exactly that row.
pub proof fn lemma_remove_at(s: StoreView, i: int)
    requires
        table_wf(s),
        0 <= i < s.rows.len(),
    ensures
        table_wf(StoreView { rows: s.rows.remove(i), last: s.last }),
        removed(s, StoreView { rows: s.rows.remove(i), last: s.last }, s.rows[i].short),
{
    let t = StoreView { rows: s.rows.remove(i), last: s.last };
    let short = s.rows[i].short;
    assert forall|j: int| 0 <= j < t.rows.len() implies #[trigger] t.rows[j] == s.rows[
        if j < i { j } else { j + 1 }] by {}
    assert forall|r: LinkView| #[trigger] t.rows.contains(r) <==> (s.rows.contains(r) && r.short
        != short) by {
        if t.rows.contains(r) {
            let j = choose|j: int| 0 <= j < t.rows.len() && t.rows[j] == r;
            let k = if j < i { j } else { j + 1 };
            assert(s.rows[k] == r);
        }
        if s.rows.contains(r) && r.short != short {
            let k = choose|k: int| 0 <= k < s.rows.len() && s.rows[k] == r;
            let j = if k < i { k } else { k - 1 };
            assert(t.rows[j] == r);
        }
    }
    assert forall|a: int, b: int|
        0 <= a < t.rows.len() && 0 <= b < t.rows.len() && a != b implies {
            &&& #[trigger] t.rows[a].short != #[trigger] t.rows[b].short
            &&& t.rows[a].link != t.rows[b].link
            &&& t.rows[a].id != t.rows[b].id
        } by {
        let ka = if a < i { a } else { a + 1 };
        let kb = if b < i { b } else { b + 1 };
        assert(t.rows[a] == s.rows[ka]);
        assert(t.rows[b] == s.rows[kb]);
    }
    assert forall|a: int| #![trigger t.rows[a]] 0 <= a < t.rows.len() implies {
        &&& t.rows[a].short.len() > 0
        &&& t.rows[a].id is Some
        &&& t.rows[a].id.unwrap() <= t.last
    } by {
        let ka = if a < i { a } else { a + 1 };
        assert(t.rows[a] == s.rows[ka]);
    }
}

fn copy_of(m: &Model) -> (r: Model)
    ensures
        r@ == m@,
{
    Model { id: m.id, short: m.short.clone(), link: m.link.clone() }
}

/// The id that the next record will take.
pub fn get_next_id(store: &LinkStore) -> (r: Result<u32, StoreError>)
    ensures
        r == if store@.last == u32::MAX {
            Err::<u32, StoreError>(StoreError::Exhausted)
        } else {
            Ok((store@.last + 1) as u32)
        },
{
    if store.last == u32::MAX {
        Err(StoreError::Exhausted)
    } else {
        Ok(store.last + 1)
    }
}

/// The record with this short code; `None` when there is none.
pub fn get_short_link(store: &LinkStore, short: String) -> (r: Option<Model>)
    requires
        store.wf(),
    ensures
        model_option_view(r) == find_short(store@.rows, short@),
{
    match store.position_of_short(&short) {
        Some(i) => {
            proof {
                lemma_find_at(store@, i as int);
            }
            Some(copy_of(&store.rows[i]))
        },
        None => None,
    }
}

/// Takes out the record with this short code; an unknown code changes nothing.
pub fn delete_short_link(store: &mut LinkStore, short: String)
    requires
        old(store).wf(),
    ensures
        final(store).wf(),
        removed(old(store)@, final(store)@, short@),
{
    match store.position_of_short(&short) {
        Some(i) => {
            proof {
                lemma_remove_at(store@, i as int);
            }
            store.rows.remove(i);
            assert(store@.rows =~= old(store)@.rows.remove(i as int));
        },
        None => {
            assert forall|r: LinkView| #[trigger] store@.rows.contains(r) implies r.short != short@ by {
                if store@.rows.contains(r) {
                    let k = choose|k: int| 0 <= k < store@.rows.len() && store@.rows[k] == r;
                    assert(store@.rows[k].short != short@);
                }
            }
        },
    }
}

/// Creates the record of `link`, with `token` as code and target of the
/// placeholder row should the chosen code be taken (see `create_outcome`).
pub fn add_short_link_using(
    store: &mut LinkStore,
    link: String,
    custom: Option<String>,
    token: String,
) -> (r: Result<Model, StoreError>)
    requires
        old(store).wf(),
    ensures
        final(store).wf(),
        (result_view(r), final(store)@) == create_outcome(
            old(store)@,
            link@,
            option_view(custom),
            token@,
        ),
{
    if let Some(i) = store.position_of_link(&link) {
        proof {
            lemma_find_at(store@, i as int);
        }
        return Ok(copy_of(&store.rows[i]));
    }
    let cand: String = match custom {
        Some(c) => c,
        None => match get_next_id(store) {
            Ok(n) => encode(n),
            Err(e) => {
                return Err(e);
            },
        },
    };
    if store.position_of_short(&cand).is_none() {
        return store.insert(cand, link);
    }
    let twin = token.clone();
    match store.insert(token, twin) {
        Ok(_) => {},
        Err(e) => {
            return Err(e);
        },
    }
    let code = match get_next_id(store) {
        Ok(n) => encode(n),
        Err(e) => {
            return Err(e);
        },
    };
    store.insert(code, link)
}

/// Relies on uuid::Uuid::new_v4 and its `Display`, which writes the
/// hyphenated form: 36 characters.
#[verifier::external_body]
fn random_token() -> (r: String)
    ensures
        r@.len() == 36,
{
    uuid::Uuid::new_v4().to_string()
}

/// Creates the record of `link`; should the chosen code be taken, a fresh
/// random token names the placeholder row.
pub fn add_short_link(store: &mut LinkStore, link: String, custom: Option<String>) -> (r: Result<
    Model,
    StoreError,
>)
    requires
        old(store).wf(),
    ensures
        final(store).wf(),
        exists|token: Seq<char>|
            token.len() == 36 && (result_view(r), final(store)@) == create_outcome(
                old(store)@,
                link@,
                option_view(custom),
                token,
            ),
{
    let token = random_token();
    let r = add_short_link_using(store, link, custom, token);
    assert(token@.len() == 36);
    r
}

} // verus!
