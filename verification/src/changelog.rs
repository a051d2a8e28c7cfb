//! Reading changelog events back from logical decoding: the event ids a
//! `test_decoding` stream reports for inserts into the changelog, and the
//! statement that fetches those events.
use vstd::prelude::*;
use crate::hooks::{find_sub, find_sub_exec, first_index_of};
use crate::server::starts_with;
use crate::text::{
    chars_of, int_text, join_spec, parse_i64, parse_i64_spec, push_i64, push_str, slice_chars,
    string_from_chars,
};

verus! {

/// The prefix of a decoded insert into the changelog.
pub open spec fn insert_prefix() -> Seq<char> {
    "table spiral.changelog: INSERT:"@
}

/// The label of the event id column in a decoded row.
pub open spec fn event_label() -> Seq<char> {
    "event_id[bigint]:"@
}

/// The event id a decoded change reports: for an insert into the
/// changelog, the integer after the first `event_id[bigint]:`, up to the
/// next space; `None` for other changes, or when there is no space after
/// it or the text there is not an `i64`.
pub open spec fn decoded_event_id(data: Seq<char>) -> Option<i64> {
    if !starts_with(data, insert_prefix()) {
        None
    } else {
        match find_sub(data, event_label()) {
            Some(idx) => {
                let rest = data.skip(idx + event_label().len());
                match first_index_of(rest, ' ') {
                    Some(end) => parse_i64_spec(rest.take(end)),
                    None => None,
                }
            },
            None => None,
        }
    }
}

/// The event id a decoded change reports (see `decoded_event_id`).
pub fn changelog_event_id(data: &str) -> (r: Option<i64>)
    ensures
        r == decoded_event_id(data@),
{
    let d = chars_of(data);
    proof {
        reveal_strlit("table spiral.changelog: INSERT:");
        reveal_strlit("event_id[bigint]:");
    }
    let p = chars_of("table spiral.changelog: INSERT:");
    if p.len() > d.len() {
        return None;
    }
    let head = slice_chars(&d, 0, p.len());
    proof {
        assert(head@ =~= data@.take(insert_prefix().len() as int));
    }
    if !crate::text::chars_eq(&head, &p) {
        return None;
    }
    match find_sub_exec(&d, "event_id[bigint]:") {
        Some(idx) => {
            let n = d.len();
            assert(event_label().len() == 17);
            let rest = slice_chars(&d, idx + 17, n);
            proof {
                assert(rest@ =~= data@.skip(idx + event_label().len()));
            }
            match crate::hooks::find_char(&rest, ' ') {
                Some(end) => {
                    let num = slice_chars(&rest, 0, end);
                    proof {
                        assert(num@ =~= rest@.take(end as int));
                    }
                    parse_i64(&num)
                },
                None => None,
            }
        },
        None => None,
    }
}

/// The event ids joined with commas.
pub open spec fn ids_text(ids: Seq<i64>) -> Seq<char>
    decreases ids.len(),
{
    if ids.len() == 0 {
        Seq::empty()
    } else if ids.len() == 1 {
        int_text(ids[0] as int)
    } else {
        ids_text(ids.drop_last()) + ","@ + int_text(ids.last() as int)
    }
}

/// The statement that fetches the given changelog events, oldest first.
pub fn events_query(ids: &Vec<i64>) -> (r: String)
    ensures
        r@ == "SELECT event_id, base_view, scope_values, t_start, t_end FROM spiral.changelog WHERE event_id IN ("@
            + ids_text(ids@) + ") ORDER BY event_id ASC"@,
{
    let mut v = chars_of(
        "SELECT event_id, base_view, scope_values, t_start, t_end FROM spiral.changelog WHERE event_id IN (",
    );
    let ghost start = v@;
    let n = ids.len();
    let mut i: usize = 0;
    proof {
        assert(ids@.take(0) =~= Seq::<i64>::empty());
        assert(v@ =~= start + ids_text(ids@.take(0)));
    }
    while i < n
        invariant
            n == ids@.len(),
            i <= n,
            v@ == start + ids_text(ids@.take(i as int)),
        decreases n - i,
    {
        proof {
            assert(ids@.take(i + 1).drop_last() =~= ids@.take(i as int));
            assert(ids@.take(i + 1).last() == ids@[i as int]);
        }
        if i > 0 {
            push_str(&mut v, ",");
        }
        push_i64(&mut v, ids[i]);
        proof {
            if i == 0 {
                assert(v@ =~= start + ids_text(ids@.take(1)));
            } else {
                assert(v@ =~= start + ids_text(ids@.take(i + 1)));
            }
        }
        i = i + 1;
    }
    proof {
        assert(ids@.take(n as int) =~= ids@);
    }
    push_str(&mut v, ") ORDER BY event_id ASC");
    string_from_chars(&v)
}

} // verus!
