//! What holds across calls of the table's operations.
use vstd::prelude::*;
use crate::codec::{code_of, lemma_code_injective};
use crate::db::{
    create_outcome, find_short, has_link, has_short, insert_outcome, lemma_find_at,
    lemma_insert_wf, removed, table_wf, LinkView, StoreError, StoreView,
};

verus! {

/// `t` holds the rows of `s` in front, and has handed out at least as many ids.
pub open spec fn extends(s: StoreView, t: StoreView) -> bool {
    &&& s.rows.len() <= t.rows.len()
    &&& forall|i: int| 0 <= i < s.rows.len() ==> #[trigger] t.rows[i] == s.rows[i]
    &&& s.last <= t.last
}

proof fn lemma_insert_extends(s: StoreView, short: Seq<char>, link: Seq<char>)
    requires
        table_wf(s),
    ensures
        table_wf(insert_outcome(s, short, link).1),
        extends(s, insert_outcome(s, short, link).1),
        insert_outcome(s, short, link).0 matches Ok(r) ==> {
            &&& insert_outcome(s, short, link).1.rows.contains(r)
            &&& r.short == short
            &&& r.link == link
            &&& r.id == Some(insert_outcome(s, short, link).1.last)
            &&& s.last < insert_outcome(s, short, link).1.last
        },
{
    lemma_insert_wf(s, short, link);
    let t = insert_outcome(s, short, link).1;
    if insert_outcome(s, short, link).0 is Ok {
        assert(t.rows[s.rows.len() as int] == insert_outcome(s, short, link).0->Ok_0);
    }
}

/// A create keeps the table's invariant, only adds rows, and a record that it
/// returns is in the table afterwards, with the target that was asked for.
pub proof fn lemma_create_extends(
    s: StoreView,
    link: Seq<char>,
    custom: Option<Seq<char>>,
    token: Seq<char>,
)
    requires
        table_wf(s),
    ensures
        table_wf(create_outcome(s, link, custom, token).1),
        extends(s, create_outcome(s, link, custom, token).1),
        forall|r: LinkView| #[trigger]
            s.rows.contains(r) ==> create_outcome(s, link, custom, token).1.rows.contains(r),
        create_outcome(s, link, custom, token).0 matches Ok(r) ==> {
            &&& create_outcome(s, link, custom, token).1.rows.contains(r)
            &&& r.link == link
        },
{
    if has_link(s.rows, link) {
        let i = choose|i: int| 0 <= i < s.rows.len() && s.rows[i].link == link;
        lemma_find_at(s, i);
        assert(s.rows.contains(s.rows[i]));
    } else if custom is None && s.last == u32::MAX {
    } else {
        let cand = match custom {
            Some(c) => c,
            None => code_of((s.last + 1) as u32),
        };
        if !has_short(s.rows, cand) {
            lemma_insert_extends(s, cand, link);
        } else {
            lemma_insert_extends(s, token, token);
            let s1 = insert_outcome(s, token, token).1;
            if s1.last != u32::MAX && insert_outcome(s, token, token).0 is Ok {
                lemma_insert_extends(s1, code_of((s1.last + 1) as u32), link);
            }
        }
    }
    let t = create_outcome(s, link, custom, token).1;
    assert forall|r: LinkView| #[trigger] s.rows.contains(r) implies t.rows.contains(r) by {
        let i = choose|i: int| 0 <= i < s.rows.len() && s.rows[i] == r;
        assert(t.rows[i] == s.rows[i]);
    }
}

/// A row stays in the table through a delete of any other code.
pub proof fn lemma_delete_keeps_row(s: StoreView, t: StoreView, short: Seq<char>, r: LinkView)
    requires
        removed(s, t, short),
        s.rows.contains(r),
        r.short != short,
    ensures
        t.rows.contains(r),
{
}

/// A row in a well-formed table is the one that its code resolves to, with
/// its target unchanged. A record that a create returns is such a row (see
/// `lemma_create_extends`), and stays one through later creates and deletes
/// of other codes (`lemma_delete_keeps_row`).
pub proof fn lemma_round_trip(s: StoreView, r: LinkView)
    requires
        table_wf(s),
        s.rows.contains(r),
    ensures
        find_short(s.rows, r.short) == Some(r),
{
    let i = choose|i: int| 0 <= i < s.rows.len() && s.rows[i] == r;
    lemma_find_at(s, i);
}

/// Creating a target that has a row gives back that row and leaves the table
/// as it was, whatever custom code and token the call brings.
pub proof fn lemma_create_idempotent(
    s: StoreView,
    r: LinkView,
    custom: Option<Seq<char>>,
    token: Seq<char>,
)
    requires
        table_wf(s),
        s.rows.contains(r),
    ensures
        create_outcome(s, r.link, custom, token) == (Ok::<LinkView, StoreError>(r), s),
{
    let i = choose|i: int| 0 <= i < s.rows.len() && s.rows[i] == r;
    lemma_find_at(s, i);
}

/// A record created for a target gets a code that no row for another target
/// has.
pub proof fn lemma_distinct_codes(
    s: StoreView,
    r1: LinkView,
    link: Seq<char>,
    custom: Option<Seq<char>>,
    token: Seq<char>,
)
    requires
        table_wf(s),
        s.rows.contains(r1),
        link != r1.link,
        create_outcome(s, link, custom, token).0 is Ok,
    ensures
        create_outcome(s, link, custom, token).0->Ok_0.short != r1.short,
{
    let (r2, t) = create_outcome(s, link, custom, token);
    lemma_create_extends(s, link, custom, token);
    assert(t.rows.contains(r1));
    let i = choose|i: int| 0 <= i < t.rows.len() && t.rows[i] == r1;
    let j = choose|j: int| 0 <= j < t.rows.len() && t.rows[j] == r2->Ok_0;
}

/// A record newly created without a custom code carries the code of its own
/// id, and no other id has that code; its id is above every id handed out
/// before.
pub proof fn lemma_sequence_code(s: StoreView, link: Seq<char>, token: Seq<char>, n: u32)
    requires
        table_wf(s),
        !has_link(s.rows, link),
        create_outcome(s, link, None, token).0 is Ok,
    ensures
        ({
            let r = create_outcome(s, link, None, token).0->Ok_0;
            &&& r.id is Some
            &&& r.short == code_of(r.id.unwrap())
            &&& s.last < r.id.unwrap()
            &&& r.id.unwrap() <= create_outcome(s, link, None, token).1.last
            &&& code_of(n) == r.short ==> n == r.id.unwrap()
        }),
{
    let cand = code_of((s.last + 1) as u32);
    if !has_short(s.rows, cand) {
        lemma_insert_extends(s, cand, link);
    } else {
        lemma_insert_extends(s, token, token);
        let s1 = insert_outcome(s, token, token).1;
        lemma_insert_extends(s1, code_of((s1.last + 1) as u32), link);
    }
    let r = create_outcome(s, link, None, token).0->Ok_0;
    if code_of(n) == r.short {
        lemma_code_injective(n, r.id.unwrap());
    }
}

/// A record newly created without a custom code has an id above that of
/// every row already in the table, and carries the code of that id.
pub proof fn lemma_sequence_increases(s: StoreView, r1: LinkView, link: Seq<char>, token: Seq<char>)
    requires
        table_wf(s),
        s.rows.contains(r1),
        !has_link(s.rows, link),
        create_outcome(s, link, None, token).0 is Ok,
    ensures
        ({
            let r2 = create_outcome(s, link, None, token).0->Ok_0;
            &&& r2.short == code_of(r2.id.unwrap())
            &&& r1.id.unwrap() < r2.id.unwrap()
        }),
{
    lemma_sequence_code(s, link, token, 0);
    let i = choose|i: int| 0 <= i < s.rows.len() && s.rows[i] == r1;
    assert(s.rows[i].id.unwrap() <= s.last);
}

/// A code with no row keeps having none through a delete of any code.
pub proof fn lemma_absent_after_delete(s: StoreView, t: StoreView, deleted: Seq<char>, short: Seq<char>)
    requires
        removed(s, t, deleted),
        !has_short(s.rows, short),
    ensures
        !has_short(t.rows, short),
{
    if has_short(t.rows, short) {
        let i = choose|i: int| 0 <= i < t.rows.len() && t.rows[i].short == short;
        assert(t.rows.contains(t.rows[i]));
        let k = choose|k: int| 0 <= k < s.rows.len() && s.rows[k] == t.rows[i];
    }
}

/// After a delete the code resolves to nothing; deleting an unknown code
/// keeps every row.
pub proof fn lemma_delete_absent(s: StoreView, t: StoreView, short: Seq<char>)
    requires
        removed(s, t, short),
    ensures
        find_short(t.rows, short) is None,
        !has_short(s.rows, short) ==> forall|r: LinkView| #[trigger]
            t.rows.contains(r) <==> s.rows.contains(r),
{
    if has_short(t.rows, short) {
        let i = choose|i: int| 0 <= i < t.rows.len() && t.rows[i].short == short;
        assert(t.rows.contains(t.rows[i]));
    }
    if !has_short(s.rows, short) {
        assert forall|r: LinkView| #[trigger] t.rows.contains(r) <==> s.rows.contains(r) by {
            if s.rows.contains(r) {
                let k = choose|k: int| 0 <= k < s.rows.len() && s.rows[k] == r;
                assert(s.rows[k].short != short);
            }
        }
    }
}

} // verus!
