//! File persistence, minus the file: renders a whole table as the text of
//! its snapshot file, and rebuilds a table from such text.
//!
//! Loading is best-effort recovery: each line is decoded on its own and a
//! line that fails to parse is skipped, never fatal; records met twice
//! (same id) keep the later line. Absent files and write failures are the
//! caller's concern — a missing file simply means loading empty text, and
//! a failed write leaves the in-memory table authoritative.

use vstd::prelude::*;
use vstd::string::StringExecFns;
use crate::codec::{
    split_on, clean, user_body, objective_body, encode_user_spec, encode_objective_spec,
    decode_user_spec, decode_objective_spec, encode_user, encode_objective, decode_user,
    decode_objective, split_chars, lemma_split_concat, lemma_split_no_sep,
    lemma_user_body_round_trip, lemma_objective_body_round_trip, lemma_empty_line_malformed,
};
use crate::structs::{UserV, ObjectiveV};
use crate::tables::{
    UserTable, ObjectiveTable, upsert_user, upsert_obj, contains_uid, contains_oid, wf_users,
    wf_objs,
};

verus! {

/// The snapshot text of a user table: every record's line, in table order.
pub open spec fn render_users_spec(t: Seq<UserV>) -> Seq<char>
    decreases t.len(),
{
    if t.len() == 0 {
        Seq::<char>::empty()
    } else {
        encode_user_spec(t[0]) + render_users_spec(t.drop_first())
    }
}

/// The snapshot text of an objective table, in table order.
pub open spec fn render_objectives_spec(t: Seq<ObjectiveV>) -> Seq<char>
    decreases t.len(),
{
    if t.len() == 0 {
        Seq::<char>::empty()
    } else {
        encode_objective_spec(t[0]) + render_objectives_spec(t.drop_first())
    }
}

/// One id-keyed insert per line that decodes, skipping the rest.
pub open spec fn load_users_fold(lines: Seq<Seq<char>>, acc: Seq<UserV>) -> Seq<UserV>
    decreases lines.len(),
{
    if lines.len() == 0 {
        acc
    } else {
        let step = match decode_user_spec(lines[0]) {
            Some(u) => upsert_user(acc, u),
            None => acc,
        };
        load_users_fold(lines.drop_first(), step)
    }
}

/// One id-keyed insert per line that decodes, skipping the rest.
pub open spec fn load_objectives_fold(lines: Seq<Seq<char>>, acc: Seq<ObjectiveV>) -> Seq<
    ObjectiveV,
>
    decreases lines.len(),
{
    if lines.len() == 0 {
        acc
    } else {
        let step = match decode_objective_spec(lines[0]) {
            Some(o) => upsert_obj(acc, o),
            None => acc,
        };
        load_objectives_fold(lines.drop_first(), step)
    }
}

/// The user table a snapshot text denotes.
pub open spec fn load_users_spec(text: Seq<char>) -> Seq<UserV> {
    load_users_fold(split_on(text, '\n'), Seq::<UserV>::empty())
}

/// The objective table a snapshot text denotes.
pub open spec fn load_objectives_spec(text: Seq<char>) -> Seq<ObjectiveV> {
    load_objectives_fold(split_on(text, '\n'), Seq::<ObjectiveV>::empty())
}

/// Renders the snapshot text of a user table, one line per record, in
/// table order.
pub fn render_users(t: &UserTable) -> (s: String)
    ensures
        s@ == render_users_spec(t@),
{
    let n = t.len();
    let mut s = String::new();
    let mut i: usize = 0;
    proof {
        assert(t@.skip(0) =~= t@);
        assert(s@ =~= Seq::<char>::empty());
        assert(s@ + render_users_spec(t@) =~= render_users_spec(t@));
    }
    while i < n
        invariant
            0 <= i <= n == t@.len(),
            render_users_spec(t@) == s@ + render_users_spec(t@.skip(i as int)),
        decreases n - i,
    {
        proof {
            let rest = t@.skip(i as int);
            assert(rest[0] == t@[i as int]);
            assert(rest.drop_first() =~= t@.skip(i + 1));
        }
        let line = encode_user(t.get(i));
        s.append(line.as_str());
        i = i + 1;
    }
    proof {
        assert(t@.skip(n as int) =~= Seq::<UserV>::empty());
        assert(s@ + render_users_spec(t@.skip(n as int)) =~= s@);
    }
    s
}

/// Renders the snapshot text of an objective table, one line per record,
/// in table order.
pub fn render_objectives(t: &ObjectiveTable) -> (s: String)
    ensures
        s@ == render_objectives_spec(t@),
{
    let n = t.len();
    let mut s = String::new();
    let mut i: usize = 0;
    proof {
        assert(t@.skip(0) =~= t@);
        assert(s@ =~= Seq::<char>::empty());
        assert(s@ + render_objectives_spec(t@) =~= render_objectives_spec(t@));
    }
    while i < n
        invariant
            0 <= i <= n == t@.len(),
            render_objectives_spec(t@) == s@ + render_objectives_spec(t@.skip(i as int)),
        decreases n - i,
    {
        proof {
            let rest = t@.skip(i as int);
            assert(rest[0] == t@[i as int]);
            assert(rest.drop_first() =~= t@.skip(i + 1));
        }
        let line = encode_objective(t.get(i));
        s.append(line.as_str());
        i = i + 1;
    }
    proof {
        assert(t@.skip(n as int) =~= Seq::<ObjectiveV>::empty());
        assert(s@ + render_objectives_spec(t@.skip(n as int)) =~= s@);
    }
    s
}

/// Rebuilds a user table from snapshot text, line by line, skipping lines
/// that fail to parse; empty text (an absent file) yields the empty table.
pub fn load_users(text: &str) -> (t: UserTable)
    ensures
        t@ == load_users_spec(text@),
        t.wf(),
{
    let lines = split_chars(text, '\n');
    let ghost lv = lines@.map_values(|p: String| p@);
    let mut t = UserTable::new();
    let n = lines.len();
    let mut i: usize = 0;
    proof {
        assert(lv.skip(0) =~= lv);
    }
    while i < n
        invariant
            0 <= i <= n == lines@.len(),
            lv == lines@.map_values(|p: String| p@),
            lv == split_on(text@, '\n'),
            t.wf(),
            load_users_fold(lv.skip(i as int), t@) == load_users_spec(text@),
        decreases n - i,
    {
        let ghost rest = lv.skip(i as int);
        let ghost before = t@;
        proof {
            assert(rest[0] == lv[i as int]);
            assert(lv[i as int] == lines@[i as int]@);
            assert(rest.drop_first() =~= lv.skip(i + 1));
        }
        match decode_user(lines[i].as_str()) {
            Ok(u) => {
                t.upsert(u);
            },
            Err(_) => {},
        }
        i = i + 1;
    }
    proof {
        assert(lv.skip(n as int) =~= Seq::<Seq<char>>::empty());
    }
    t
}

/// Rebuilds an objective table from snapshot text, line by line, skipping
/// lines that fail to parse; empty text yields the empty table.
pub fn load_objectives(text: &str) -> (t: ObjectiveTable)
    ensures
        t@ == load_objectives_spec(text@),
        t.wf(),
{
    let lines = split_chars(text, '\n');
    let ghost lv = lines@.map_values(|p: String| p@);
    let mut t = ObjectiveTable::new();
    let n = lines.len();
    let mut i: usize = 0;
    proof {
        assert(lv.skip(0) =~= lv);
    }
    while i < n
        invariant
            0 <= i <= n == lines@.len(),
            lv == lines@.map_values(|p: String| p@),
            lv == split_on(text@, '\n'),
            t.wf(),
            load_objectives_fold(lv.skip(i as int), t@) == load_objectives_spec(text@),
        decreases n - i,
    {
        let ghost rest = lv.skip(i as int);
        let ghost before = t@;
        proof {
            assert(rest[0] == lv[i as int]);
            assert(lv[i as int] == lines@[i as int]@);
            assert(rest.drop_first() =~= lv.skip(i + 1));
        }
        match decode_objective(lines[i].as_str()) {
            Ok(o) => {
                t.upsert(o);
            },
            Err(_) => {},
        }
        i = i + 1;
    }
    proof {
        assert(lv.skip(n as int) =~= Seq::<Seq<char>>::empty());
    }
    t
}

/// Every text field of every user record can round-trip.
pub open spec fn clean_users(t: Seq<UserV>) -> bool {
    forall|i: int| #![trigger t[i]] 0 <= i < t.len() ==> clean(t[i].name)
}

/// Every text field of every objective record can round-trip.
pub open spec fn clean_objs(t: Seq<ObjectiveV>) -> bool {
    forall|i: int| #![trigger t[i]] 0 <= i < t.len() ==> clean(t[i].name) && clean(t[i].desc)
}

/// The line bodies of a table's snapshot, ending in the empty segment the
/// final newline leaves behind.
spec fn body_lines_users(t: Seq<UserV>) -> Seq<Seq<char>>
    decreases t.len(),
{
    if t.len() == 0 {
        seq![Seq::<char>::empty()]
    } else {
        seq![user_body(t[0])] + body_lines_users(t.drop_first())
    }
}

/// The line bodies of a table's snapshot, ending in the empty segment the
/// final newline leaves behind.
spec fn body_lines_objs(t: Seq<ObjectiveV>) -> Seq<Seq<char>>
    decreases t.len(),
{
    if t.len() == 0 {
        seq![Seq::<char>::empty()]
    } else {
        seq![objective_body(t[0])] + body_lines_objs(t.drop_first())
    }
}

proof fn lemma_split_render_users(t: Seq<UserV>)
    requires
        clean_users(t),
    ensures
        split_on(render_users_spec(t), '\n') == body_lines_users(t),
    decreases t.len(),
{
    if t.len() == 0 {
        assert(split_on(render_users_spec(t), '\n') =~~= body_lines_users(t));
    } else {
        let body = user_body(t[0]);
        lemma_user_body_round_trip(t[0]);
        let tail = t.drop_first();
        assert(clean_users(tail)) by {
            assert(forall|i: int| 0 <= i < tail.len() ==> #[trigger] tail[i] == t[i + 1]);
        }
        lemma_split_render_users(tail);
        assert(render_users_spec(t) =~= body + seq!['\n'] + render_users_spec(tail));
        lemma_split_concat(body, render_users_spec(tail), '\n');
        lemma_split_no_sep(body, '\n');
        assert(split_on(render_users_spec(t), '\n') =~~= body_lines_users(t));
    }
}

proof fn lemma_split_render_objs(t: Seq<ObjectiveV>)
    requires
        clean_objs(t),
    ensures
        split_on(render_objectives_spec(t), '\n') == body_lines_objs(t),
    decreases t.len(),
{
    if t.len() == 0 {
        assert(split_on(render_objectives_spec(t), '\n') =~~= body_lines_objs(t));
    } else {
        let body = objective_body(t[0]);
        lemma_objective_body_round_trip(t[0]);
        let tail = t.drop_first();
        assert(clean_objs(tail)) by {
            assert(forall|i: int| 0 <= i < tail.len() ==> #[trigger] tail[i] == t[i + 1]);
        }
        lemma_split_render_objs(tail);
        assert(render_objectives_spec(t) =~= body + seq!['\n'] + render_objectives_spec(tail));
        lemma_split_concat(body, render_objectives_spec(tail), '\n');
        lemma_split_no_sep(body, '\n');
        assert(split_on(render_objectives_spec(t), '\n') =~~= body_lines_objs(t));
    }
}

proof fn lemma_fold_bodies_users(t: Seq<UserV>, acc: Seq<UserV>)
    requires
        wf_users(acc + t),
        clean_users(t),
    ensures
        load_users_fold(body_lines_users(t), acc) == acc + t,
    decreases t.len(),
{
    if t.len() == 0 {
        lemma_empty_line_malformed();
        let l1 = body_lines_users(t);
        assert(l1 =~~= seq![Seq::<char>::empty()]);
        assert(l1.len() == 1 && l1[0] == Seq::<char>::empty());
        assert(decode_user_spec(l1[0]) is None);
        assert(load_users_fold(l1, acc) == load_users_fold(l1.drop_first(), acc));
        assert(l1.drop_first() =~= Seq::<Seq<char>>::empty());
        assert(load_users_fold(Seq::<Seq<char>>::empty(), acc) == acc);
        assert(acc + t =~= acc);
    } else {
        lemma_user_body_round_trip(t[0]);
        assert(!contains_uid(acc, t[0].id)) by {
            assert(forall|k: int| 0 <= k < acc.len() ==> #[trigger] acc[k] == (acc + t)[k]);
            assert((acc + t)[acc.len() as int] == t[0]);
            assert(forall|k: int| 0 <= k < acc.len() ==> #[trigger] acc[k].id != t[0].id);
        }
        let acc2 = acc.push(t[0]);
        assert(upsert_user(acc, t[0]) == acc2);
        let tail = t.drop_first();
        assert(acc2 + tail =~= acc + t);
        assert(clean_users(tail)) by {
            assert(forall|i: int| 0 <= i < tail.len() ==> #[trigger] tail[i] == t[i + 1]);
        }
        lemma_fold_bodies_users(tail, acc2);
        assert(body_lines_users(t)[0] == user_body(t[0]));
        assert(body_lines_users(t).drop_first() =~= body_lines_users(tail));
    }
}

proof fn lemma_fold_bodies_objs(t: Seq<ObjectiveV>, acc: Seq<ObjectiveV>)
    requires
        wf_objs(acc + t),
        clean_objs(t),
    ensures
        load_objectives_fold(body_lines_objs(t), acc) == acc + t,
    decreases t.len(),
{
    if t.len() == 0 {
        lemma_empty_line_malformed();
        let l1 = body_lines_objs(t);
        assert(l1 =~~= seq![Seq::<char>::empty()]);
        assert(l1.len() == 1 && l1[0] == Seq::<char>::empty());
        assert(decode_objective_spec(l1[0]) is None);
        assert(load_objectives_fold(l1, acc) == load_objectives_fold(l1.drop_first(), acc));
        assert(l1.drop_first() =~= Seq::<Seq<char>>::empty());
        assert(load_objectives_fold(Seq::<Seq<char>>::empty(), acc) == acc);
        assert(acc + t =~= acc);
    } else {
        lemma_objective_body_round_trip(t[0]);
        assert(!contains_oid(acc, t[0].id)) by {
            assert(forall|k: int| 0 <= k < acc.len() ==> #[trigger] acc[k] == (acc + t)[k]);
            assert((acc + t)[acc.len() as int] == t[0]);
            assert(forall|k: int| 0 <= k < acc.len() ==> #[trigger] acc[k].id != t[0].id);
        }
        let acc2 = acc.push(t[0]);
        assert(upsert_obj(acc, t[0]) == acc2);
        let tail = t.drop_first();
        assert(acc2 + tail =~= acc + t);
        assert(clean_objs(tail)) by {
            assert(forall|i: int| 0 <= i < tail.len() ==> #[trigger] tail[i] == t[i + 1]);
        }
        lemma_fold_bodies_objs(tail, acc2);
        assert(body_lines_objs(t)[0] == objective_body(t[0]));
        assert(body_lines_objs(t).drop_first() =~= body_lines_objs(tail));
    }
}

/// Law: loading the rendered snapshot of a well-formed user table whose
/// names contain neither the separator nor a newline recovers the table
/// exactly, record for record and in order.
pub proof fn lemma_users_round_trip(t: Seq<UserV>)
    requires
        wf_users(t),
        clean_users(t),
    ensures
        load_users_spec(render_users_spec(t)) == t,
{
    lemma_split_render_users(t);
    assert(Seq::<UserV>::empty() + t =~= t);
    lemma_fold_bodies_users(t, Seq::<UserV>::empty());
}

/// Law: loading the rendered snapshot of a well-formed objective table
/// whose names and descriptions contain neither the separator nor a
/// newline recovers the table exactly, record for record and in order.
pub proof fn lemma_objectives_round_trip(t: Seq<ObjectiveV>)
    requires
        wf_objs(t),
        clean_objs(t),
    ensures
        load_objectives_spec(render_objectives_spec(t)) == t,
{
    lemma_split_render_objs(t);
    assert(Seq::<ObjectiveV>::empty() + t =~= t);
    lemma_fold_bodies_objs(t, Seq::<ObjectiveV>::empty());
}

} // verus!
