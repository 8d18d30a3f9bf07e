//! The post repository: creating posts, bumping the parent on a reply,
//! and the two read queries — a single thread with its replies, and the
//! paginated bump-ordered top-level listing.
//!
//! The queries work on a full scan of the store, as the board keeps no
//! secondary index. A record that does not decode is skipped, never
//! surfaced as an error. Threading is flat: a reply attaches to the post
//! its `parent_id` names, and only replies naming an OP directly show up
//! in that OP's thread.

use vstd::prelude::*;
use crate::codec::{decode_spec, decode_post, encode_spec, encode_post, encodable, lemma_round_trip};
use crate::order::{
    views_of, sort_asc, sort_desc, insert_asc, insert_desc, lemma_sort_asc_ensures,
    lemma_sort_desc_ensures,
};
use crate::post::{Post, PostView, opt_bytes_view};

verus! {

/// Why a repository operation failed: the requested thread does not
/// exist, or the store itself reported an error.
#[derive(Clone, Copy, Debug, PartialEq, Eq, Structural)]
pub enum BoardError {
    NotFound,
    Store,
}

/// The posts a scan yields, in scan order, skipping records that do not
/// decode.
pub open spec fn decoded_seq(recs: Seq<(Vec<u8>, Vec<u8>)>) -> Seq<PostView>
    decreases recs.len(),
{
    if recs.len() == 0 {
        Seq::empty()
    } else {
        let rest = decoded_seq(recs.drop_last());
        match decode_spec(recs.last().1@) {
            Some(p) => rest.push(p),
            None => rest,
        }
    }
}

/// `p` belongs in the reply list of the post with id `id`. A record
/// whose own id is the queried id counts as the thread's post, never as
/// one of its replies.
pub open spec fn is_reply_to(p: PostView, id: Seq<u8>) -> bool {
    p.id != id && p.parent_id == Some(id)
}

/// The replies to `id` among `ps`, in order.
pub open spec fn replies_to(ps: Seq<PostView>, id: Seq<u8>) -> Seq<PostView> {
    ps.filter(|p: PostView| is_reply_to(p, id))
}

/// The post with id `id` among `ps`; when several records carry the same
/// id, the one scanned last wins.
pub open spec fn find_post(ps: Seq<PostView>, id: Seq<u8>) -> Option<PostView>
    decreases ps.len(),
{
    if ps.len() == 0 {
        None
    } else if ps.last().id == id {
        Some(ps.last())
    } else {
        find_post(ps.drop_last(), id)
    }
}

/// `r == true` exactly when the two byte vectors hold the same bytes.
pub fn bytes_eq(a: &Vec<u8>, b: &Vec<u8>) -> (r: bool)
    ensures
        r == (a@ == b@),
{
    if a.len() != b.len() {
        return false;
    }
    for i in 0..a.len()
        invariant
            a@.len() == b@.len(),
            forall|j: int| 0 <= j < i ==> a@[j] == b@[j],
    {
        if a[i] != b[i] {
            return false;
        }
    }
    proof {
        assert(a@ =~= b@);
    }
    true
}

/// One scan step extends the decoded sequence by the decoded post, or
/// not at all.
proof fn lemma_decoded_seq_step(recs: Seq<(Vec<u8>, Vec<u8>)>, i: int)
    requires
        0 <= i < recs.len(),
    ensures
        decode_spec(recs[i].1@) matches Some(p) ==> decoded_seq(recs.take(i + 1)) == decoded_seq(
            recs.take(i),
        ).push(p),
        decode_spec(recs[i].1@) is None ==> decoded_seq(recs.take(i + 1)) == decoded_seq(
            recs.take(i),
        ),
{
    assert(recs.take(i + 1).drop_last() =~= recs.take(i));
    assert(recs.take(i + 1).last() == recs[i]);
}

/// Appending a post extends the reply list exactly when it is a reply.
proof fn lemma_replies_to_push(ps: Seq<PostView>, p: PostView, id: Seq<u8>)
    ensures
        is_reply_to(p, id) ==> replies_to(ps.push(p), id) == replies_to(ps, id).push(p),
        !is_reply_to(p, id) ==> replies_to(ps.push(p), id) == replies_to(ps, id),
{
    reveal(Seq::filter);
    assert(ps.push(p).drop_last() =~= ps);
    assert(ps.push(p).last() == p);
}

/// Appending a post changes the found post exactly when its id matches.
proof fn lemma_find_post_push(ps: Seq<PostView>, p: PostView, id: Seq<u8>)
    ensures
        p.id == id ==> find_post(ps.push(p), id) == Some(p),
        p.id != id ==> find_post(ps.push(p), id) == find_post(ps, id),
{
    assert(ps.push(p).drop_last() =~= ps);
    assert(ps.push(p).last() == p);
}

/// `insert_asc` inserts at the first position whose timestamp is
/// strictly greater.
proof fn lemma_insert_asc_at(s: Seq<PostView>, x: PostView, j: int)
    requires
        0 <= j <= s.len(),
        forall|k: int| 0 <= k < j ==> s[k].timestamp <= x.timestamp,
        j < s.len() ==> s[j].timestamp > x.timestamp,
    ensures
        insert_asc(s, x) == s.insert(j, x),
    decreases s.len(),
{
    if j == 0 {
        if s.len() == 0 {
            assert(insert_asc(s, x) =~= s.insert(0, x));
        } else {
            assert(x.timestamp < s.first().timestamp);
            assert(seq![x] + s =~= s.insert(0, x));
        }
    } else {
        assert(s[0].timestamp <= x.timestamp);
        let rest = s.drop_first();
        assert forall|k: int| 0 <= k < j - 1 implies rest[k].timestamp <= x.timestamp by {
            assert(rest[k] == s[k + 1]);
        }
        assert(j - 1 < rest.len() ==> rest[j - 1].timestamp > x.timestamp);
        lemma_insert_asc_at(rest, x, j - 1);
        assert(seq![s.first()] + rest.insert(j - 1, x) =~= s.insert(j, x));
    }
}

/// `insert_desc` inserts at the first position whose timestamp is
/// strictly smaller.
proof fn lemma_insert_desc_at(s: Seq<PostView>, x: PostView, j: int)
    requires
        0 <= j <= s.len(),
        forall|k: int| 0 <= k < j ==> s[k].timestamp >= x.timestamp,
        j < s.len() ==> s[j].timestamp < x.timestamp,
    ensures
        insert_desc(s, x) == s.insert(j, x),
    decreases s.len(),
{
    if j == 0 {
        if s.len() == 0 {
            assert(insert_desc(s, x) =~= s.insert(0, x));
        } else {
            assert(x.timestamp > s.first().timestamp);
            assert(seq![x] + s =~= s.insert(0, x));
        }
    } else {
        assert(s[0].timestamp >= x.timestamp);
        let rest = s.drop_first();
        assert forall|k: int| 0 <= k < j - 1 implies rest[k].timestamp >= x.timestamp by {
            assert(rest[k] == s[k + 1]);
        }
        assert(j - 1 < rest.len() ==> rest[j - 1].timestamp < x.timestamp);
        lemma_insert_desc_at(rest, x, j - 1);
        assert(seq![s.first()] + rest.insert(j - 1, x) =~= s.insert(j, x));
    }
}

/// Sort posts by ascending timestamp, stably.
fn sort_posts_asc(input: Vec<Post>) -> (out: Vec<Post>)
    ensures
        views_of(out@) == sort_asc(views_of(input@)),
{
    let ghost orig: Seq<Post> = input@;
    let orig_len: usize = input.len();
    let mut v = input;
    let mut out: Vec<Post> = Vec::new();
    let mut taken: usize = 0;
    proof {
        assert(views_of(out@) =~= sort_asc(views_of(orig.take(0))));
        assert(v@ =~= orig.skip(0));
    }
    while v.len() > 0
        invariant
            orig.len() == orig_len,
            taken + v@.len() == orig.len(),
            v@ == orig.skip(taken as int),
            views_of(out@) == sort_asc(views_of(orig.take(taken as int))),
        decreases v@.len(),
    {
        let ghost prev_v = v@;
        let p = v.remove(0);
        proof {
            assert(p == orig.skip(taken as int)[0]);
            assert(p == orig[taken as int]);
            assert(prev_v.remove(0) =~= orig.skip(taken as int + 1));
        }
        let ghost sorted_prefix = views_of(out@);
        proof {
            lemma_sort_asc_ensures(views_of(orig.take(taken as int)));
        }
        let mut j: usize = 0;
        while j < out.len() && out[j].timestamp <= p.timestamp
            invariant
                j <= out@.len(),
                forall|k: int| 0 <= k < j ==> views_of(out@)[k].timestamp <= p@.timestamp,
            decreases out@.len() - j,
        {
            j = j + 1;
        }
        proof {
            assert(j < out@.len() ==> views_of(out@)[j as int].timestamp > p@.timestamp);
            lemma_insert_asc_at(sorted_prefix, p@, j as int);
        }
        out.insert(j, p);
        taken = taken + 1;
        proof {
            assert(views_of(out@) =~= sorted_prefix.insert(j as int, p@));
            assert(views_of(orig.take(taken as int)) =~= views_of(
                orig.take(taken as int - 1),
            ).push(p@));
            assert(views_of(orig.take(taken as int)).drop_last() =~= views_of(
                orig.take(taken as int - 1),
            ));
        }
    }
    proof {
        assert(orig.take(taken as int) =~= orig);
    }
    out
}

/// Sort posts by descending timestamp, stably.
fn sort_posts_desc(input: Vec<Post>) -> (out: Vec<Post>)
    ensures
        views_of(out@) == sort_desc(views_of(input@)),
{
    let ghost orig: Seq<Post> = input@;
    let orig_len: usize = input.len();
    let mut v = input;
    let mut out: Vec<Post> = Vec::new();
    let mut taken: usize = 0;
    proof {
        assert(views_of(out@) =~= sort_desc(views_of(orig.take(0))));
        assert(v@ =~= orig.skip(0));
    }
    while v.len() > 0
        invariant
            orig.len() == orig_len,
            taken + v@.len() == orig.len(),
            v@ == orig.skip(taken as int),
            views_of(out@) == sort_desc(views_of(orig.take(taken as int))),
        decreases v@.len(),
    {
        let ghost prev_v = v@;
        let p = v.remove(0);
        proof {
            assert(p == orig.skip(taken as int)[0]);
            assert(p == orig[taken as int]);
            assert(prev_v.remove(0) =~= orig.skip(taken as int + 1));
        }
        let ghost sorted_prefix = views_of(out@);
        proof {
            lemma_sort_desc_ensures(views_of(orig.take(taken as int)));
        }
        let mut j: usize = 0;
        while j < out.len() && out[j].timestamp >= p.timestamp
            invariant
                j <= out@.len(),
                forall|k: int| 0 <= k < j ==> views_of(out@)[k].timestamp >= p@.timestamp,
            decreases out@.len() - j,
        {
            j = j + 1;
        }
        proof {
            assert(j < out@.len() ==> views_of(out@)[j as int].timestamp < p@.timestamp);
            lemma_insert_desc_at(sorted_prefix, p@, j as int);
        }
        out.insert(j, p);
        taken = taken + 1;
        proof {
            assert(views_of(out@) =~= sorted_prefix.insert(j as int, p@));
            assert(views_of(orig.take(taken as int)) =~= views_of(
                orig.take(taken as int - 1),
            ).push(p@));
            assert(views_of(orig.take(taken as int)).drop_last() =~= views_of(
                orig.take(taken as int - 1),
            ));
        }
    }
    proof {
        assert(orig.take(taken as int) =~= orig);
    }
    out
}

/// Find a thread among scanned records: the post whose id is `id`
/// together with its replies sorted by ascending timestamp (oldest
/// first). `None` when no record decodes to that id.
pub fn thread_query(records: &Vec<(Vec<u8>, Vec<u8>)>, id: &Vec<u8>) -> (r: Option<
    (Post, Vec<Post>),
>)
    ensures
        match r {
            Some(t) => {
                &&& find_post(decoded_seq(records@), id@) == Some(t.0@)
                &&& views_of(t.1@) == sort_asc(replies_to(decoded_seq(records@), id@))
            },
            None => find_post(decoded_seq(records@), id@) is None,
        },
{
    let mut found: Option<Post> = None;
    let mut replies: Vec<Post> = Vec::new();
    proof {
        assert(records@.take(0) =~= Seq::<(Vec<u8>, Vec<u8>)>::empty());
        reveal(Seq::filter);
        assert(views_of(replies@) =~= replies_to(decoded_seq(records@.take(0)), id@));
    }
    for i in 0..records.len()
        invariant
            match found {
                Some(p) => find_post(decoded_seq(records@.take(i as int)), id@) == Some(p@),
                None => find_post(decoded_seq(records@.take(i as int)), id@) is None,
            },
            views_of(replies@) == replies_to(decoded_seq(records@.take(i as int)), id@),
    {
        let ghost prefix = decoded_seq(records@.take(i as int));
        proof {
            lemma_decoded_seq_step(records@, i as int);
        }
        match decode_post(&records[i].1) {
            Some(p) => {
                proof {
                    lemma_find_post_push(prefix, p@, id@);
                    lemma_replies_to_push(prefix, p@, id@);
                }
                if bytes_eq(&p.id, id) {
                    found = Some(p);
                } else {
                    let is_rep = match &p.parent_id {
                        Some(pid) => bytes_eq(pid, id),
                        None => false,
                    };
                    if is_rep {
                        let ghost old_replies = replies@;
                        replies.push(p);
                        proof {
                            assert(views_of(replies@) =~= views_of(old_replies).push(p@));
                        }
                    }
                }
            },
            None => {},
        }
    }
    proof {
        assert(records@.take(records@.len() as int) =~= records@);
    }
    match found {
        Some(post) => {
            let sorted = sort_posts_asc(replies);
            Some((post, sorted))
        },
        None => None,
    }
}

/// `p` is a top-level post: an OP, with no parent.
pub open spec fn is_top_level(p: PostView) -> bool {
    p.parent_id is None
}

/// The top-level posts among `ps`, in order.
pub open spec fn tops_of(ps: Seq<PostView>) -> Seq<PostView> {
    ps.filter(|p: PostView| is_top_level(p))
}

/// The page window of the bump-ordered top-level listing: the top-level
/// posts sorted by descending timestamp, sliced to the clamped window.
pub open spec fn page_of(ps: Seq<PostView>, page: int, page_size: int) -> Seq<PostView> {
    let sorted = sort_desc(tops_of(ps));
    sorted.subrange(
        crate::pagination::clamp_to(crate::pagination::window_start(page, page_size), sorted.len() as int),
        crate::pagination::clamp_to(crate::pagination::window_end(page, page_size), sorted.len() as int),
    )
}

/// Appending a post extends the top-level list exactly when it is an OP.
proof fn lemma_tops_of_push(ps: Seq<PostView>, p: PostView)
    ensures
        is_top_level(p) ==> tops_of(ps.push(p)) == tops_of(ps).push(p),
        !is_top_level(p) ==> tops_of(ps.push(p)) == tops_of(ps),
{
    reveal(Seq::filter);
    assert(ps.push(p).drop_last() =~= ps);
    assert(ps.push(p).last() == p);
}

/// One page of the bump-ordered top-level listing of the scanned
/// records, with the previous/next page flags: records that decode to an
/// OP, sorted by descending bump timestamp, windowed to the page.
pub fn page_query(records: &Vec<(Vec<u8>, Vec<u8>)>, page: usize, page_size: usize) -> (r: (
    Vec<Post>,
    bool,
    bool,
))
    ensures
        views_of(r.0@) == page_of(decoded_seq(records@), page as int, page_size as int),
        r.1 == crate::pagination::spec_has_prev(page as int),
        r.2 == crate::pagination::spec_has_next(
            page as int,
            page_size as int,
            tops_of(decoded_seq(records@)).len() as int,
        ),
{
    let mut tops: Vec<Post> = Vec::new();
    proof {
        assert(records@.take(0) =~= Seq::<(Vec<u8>, Vec<u8>)>::empty());
        reveal(Seq::filter);
        assert(views_of(tops@) =~= tops_of(decoded_seq(records@.take(0))));
    }
    for i in 0..records.len()
        invariant
            views_of(tops@) == tops_of(decoded_seq(records@.take(i as int))),
    {
        let ghost prefix = decoded_seq(records@.take(i as int));
        proof {
            lemma_decoded_seq_step(records@, i as int);
        }
        match decode_post(&records[i].1) {
            Some(p) => {
                proof {
                    lemma_tops_of_push(prefix, p@);
                }
                if p.parent_id.is_none() {
                    let ghost old_tops = tops@;
                    tops.push(p);
                    proof {
                        assert(views_of(tops@) =~= views_of(old_tops).push(p@));
                    }
                }
            },
            None => {},
        }
    }
    proof {
        assert(records@.take(records@.len() as int) =~= records@);
    }
    let ghost tops_view: Seq<PostView> = views_of(tops@);
    let mut sorted = sort_posts_desc(tops);
    let ghost full: Seq<PostView> = views_of(sorted@);
    let total = sorted.len();
    let (start, end, has_prev, has_next) = crate::pagination::window(total, page, page_size);
    let mut out: Vec<Post> = Vec::new();
    let count = end - start;
    proof {
        assert(full.len() == sorted@.len());
        assert(views_of(sorted@) =~= full.take(start as int) + full.skip(start as int));
    }
    for t in 0..count
        invariant
            start + count <= full.len(),
            views_of(out@) == full.subrange(start as int, start + t),
            views_of(sorted@) == full.take(start as int) + full.skip(start + t),
    {
        let ghost prev_sorted = sorted@;
        let ghost prev_out = out@;
        proof {
            assert(views_of(prev_sorted).len() == prev_sorted.len());
            assert(full.skip(start + t).len() == full.len() - start - t);
            assert(prev_sorted.len() == start + (full.len() - start - t));
        }
        let p = sorted.remove(start);
        out.push(p);
        proof {
            assert(views_of(prev_sorted)[start as int] == full.skip(start + t)[0]);
            assert(full.skip(start + t)[0] == full[start + t]);
            assert(p == prev_sorted[start as int]);
            assert(p@ == views_of(prev_sorted)[start as int]);
            assert(p@ == full[start + t]);
            assert(views_of(out@) =~= views_of(prev_out).push(p@));
            assert(views_of(out@) =~= full.subrange(start as int, start + t + 1));
            assert(views_of(sorted@) =~= views_of(prev_sorted).remove(start as int));
            assert(views_of(sorted@) =~= full.take(start as int) + full.skip(start + t + 1));
        }
    }
    proof {
        lemma_sort_desc_ensures(tops_view);
        assert(views_of(out@) =~= page_of(
            decoded_seq(records@),
            page as int,
            page_size as int,
        ));
    }
    (out, has_prev, has_next)
}

/// A post with id `id` is stored in `m`, under whatever key.
pub open spec fn has_post(m: Map<Seq<u8>, Seq<u8>>, id: Seq<u8>) -> bool {
    exists|k: Seq<u8>|
        #[trigger] m.contains_key(k) && (decode_spec(m[k]) matches Some(p) && p.id == id)
}

/// A found post means some element of the decoded sequence has that id,
/// and conversely.
proof fn lemma_find_post_exists(ps: Seq<PostView>, id: Seq<u8>)
    ensures
        (find_post(ps, id) is Some) <==> exists|i: int| 0 <= i < ps.len() && (#[trigger] ps[i]).id
            == id,
    decreases ps.len(),
{
    if ps.len() > 0 {
        lemma_find_post_exists(ps.drop_last(), id);
        if ps.last().id == id {
            assert(ps[ps.len() - 1].id == id);
        } else {
            if exists|i: int| 0 <= i < ps.len() && (#[trigger] ps[i]).id == id {
                let i = choose|i: int| 0 <= i < ps.len() && (#[trigger] ps[i]).id == id;
                assert(i < ps.len() - 1);
                assert(ps.drop_last()[i].id == id);
            }
            if exists|i: int| 0 <= i < ps.drop_last().len() && (#[trigger] ps.drop_last()[i]).id
                == id {
                let i = choose|i: int|
                    0 <= i < ps.drop_last().len() && (#[trigger] ps.drop_last()[i]).id == id;
                assert(ps[i].id == id);
            }
        }
    }
}

/// A record that decodes contributes its post to the decoded sequence.
proof fn lemma_decoded_of_record(recs: Seq<(Vec<u8>, Vec<u8>)>, i: int)
    requires
        0 <= i < recs.len(),
        decode_spec(recs[i].1@) is Some,
    ensures
        decoded_seq(recs).contains(decode_spec(recs[i].1@).unwrap()),
    decreases recs.len(),
{
    if i == recs.len() - 1 {
        assert(recs.last() == recs[i]);
        let ds = decoded_seq(recs);
        assert(ds.last() == decode_spec(recs[i].1@).unwrap());
    } else {
        lemma_decoded_of_record(recs.drop_last(), i);
        assert(recs.drop_last()[i] == recs[i]);
        let rest = decoded_seq(recs.drop_last());
        let p = decode_spec(recs[i].1@).unwrap();
        let j = choose|j: int| 0 <= j < rest.len() && rest[j] == p;
        match decode_spec(recs.last().1@) {
            Some(q) => {
                assert(decoded_seq(recs) == rest.push(q));
                assert(decoded_seq(recs)[j] == p);
            },
            None => {
                assert(decoded_seq(recs) == rest);
            },
        }
    }
}

/// Every decoded post comes from some record.
proof fn lemma_decoded_to_record(recs: Seq<(Vec<u8>, Vec<u8>)>, j: int)
    requires
        0 <= j < decoded_seq(recs).len(),
    ensures
        exists|i: int|
            0 <= i < recs.len() && decode_spec((#[trigger] recs[i]).1@) == Some(
                decoded_seq(recs)[j],
            ),
    decreases recs.len(),
{
    let rest = decoded_seq(recs.drop_last());
    match decode_spec(recs.last().1@) {
        Some(q) => {
            if j == decoded_seq(recs).len() - 1 {
                assert(decoded_seq(recs)[j] == q);
                assert(decode_spec(recs[recs.len() - 1].1@) == Some(decoded_seq(recs)[j]));
            } else {
                lemma_decoded_to_record(recs.drop_last(), j);
                assert(decoded_seq(recs)[j] == rest[j]);
                let i = choose|i: int|
                    0 <= i < recs.drop_last().len() && decode_spec(
                        (#[trigger] recs.drop_last()[i]).1@,
                    ) == Some(rest[j]);
                assert(recs[i] == recs.drop_last()[i]);
            }
        },
        None => {
            lemma_decoded_to_record(recs.drop_last(), j);
            assert(decoded_seq(recs)[j] == rest[j]);
            let i = choose|i: int|
                0 <= i < recs.drop_last().len() && decode_spec(
                    (#[trigger] recs.drop_last()[i]).1@,
                ) == Some(rest[j]);
            assert(recs[i] == recs.drop_last()[i]);
        },
    }
}

/// Over a scan that covers the store, a thread is found exactly when a
/// stored record decodes to the queried id.
pub proof fn lemma_scan_find(m: Map<Seq<u8>, Seq<u8>>, recs: Seq<(Vec<u8>, Vec<u8>)>, id: Seq<u8>)
    requires
        crate::store::scan_consistent(m, recs),
    ensures
        (find_post(decoded_seq(recs), id) is Some) <==> has_post(m, id),
{
    lemma_find_post_exists(decoded_seq(recs), id);
    if find_post(decoded_seq(recs), id) is Some {
        let j = choose|j: int|
            0 <= j < decoded_seq(recs).len() && (#[trigger] decoded_seq(recs)[j]).id == id;
        lemma_decoded_to_record(recs, j);
        let i = choose|i: int|
            0 <= i < recs.len() && decode_spec((#[trigger] recs[i]).1@) == Some(
                decoded_seq(recs)[j],
            );
        assert(m.contains_pair(recs[i].0@, recs[i].1@));
        assert(m.contains_key(recs[i].0@) && (decode_spec(m[recs[i].0@]) matches Some(p) && p.id
            == id));
    }
    if has_post(m, id) {
        let k = choose|k: Seq<u8>|
            #[trigger] m.contains_key(k) && (decode_spec(m[k]) matches Some(p) && p.id == id);
        let kseq = Seq::new(recs.len(), |i: int| recs[i].0@);
        assert(kseq.no_duplicates());
        kseq.unique_seq_to_set();
        assert(kseq.to_set().subset_of(m.dom())) by {
            assert forall|x: Seq<u8>| kseq.to_set().contains(x) implies m.dom().contains(x) by {
                let i = choose|i: int| 0 <= i < kseq.len() && kseq[i] == x;
                assert(m.contains_pair(recs[i].0@, recs[i].1@));
            }
        }
        vstd::seq_lib::seq_to_set_is_finite(kseq);
        vstd::set_lib::lemma_subset_equality(kseq.to_set(), m.dom());
        assert(kseq.to_set().contains(k));
        let i = choose|i: int| 0 <= i < kseq.len() && kseq[i] == k;
        assert(m.contains_pair(recs[i].0@, recs[i].1@));
        assert(m[k] == recs[i].1@);
        lemma_decoded_of_record(recs, i);
        let p = decode_spec(recs[i].1@).unwrap();
        assert(p.id == id);
        let j = choose|j: int| 0 <= j < decoded_seq(recs).len() && decoded_seq(recs)[j] == p;
        assert((#[trigger] decoded_seq(recs)[j]).id == id);
    }
}

/// Look a thread up in the store: one scan, then the thread query. The
/// `NotFound` error comes exactly when the scan succeeded and no stored
/// record decodes to the requested id; a store failure is `Store`.
pub fn get_thread(db: &sled::Db, id: &Vec<u8>) -> (r: Result<(Post, Vec<Post>), BoardError>)
    ensures
        match r {
            Ok(t) => has_post(crate::store::store_contents(*db), id@) && exists|
                recs: Seq<(Vec<u8>, Vec<u8>)>,
            |
                {
                    &&& #[trigger] crate::store::scan_consistent(
                        crate::store::store_contents(*db),
                        recs,
                    )
                    &&& find_post(decoded_seq(recs), id@) == Some(t.0@)
                    &&& views_of(t.1@) == sort_asc(replies_to(decoded_seq(recs), id@))
                },
            Err(e) => e is NotFound ==> !has_post(crate::store::store_contents(*db), id@),
        },
{
    match crate::store::store_scan(db) {
        Err(_) => Err(BoardError::Store),
        Ok(records) => {
            proof {
                lemma_scan_find(crate::store::store_contents(*db), records@, id@);
            }
            match thread_query(&records, id) {
                Some(t) => {
                    proof {
                        let recs = records@;
                        assert(crate::store::scan_consistent(
                            crate::store::store_contents(*db),
                            recs,
                        ));
                    }
                    Ok(t)
                },
                None => Err(BoardError::NotFound),
            }
        },
    }
}

/// One page of the board's listing from the store: one scan, then the
/// page query. Fails only when the store does.
pub fn list_top_level(db: &sled::Db, page: usize, page_size: usize) -> (r: Result<
    (Vec<Post>, bool, bool),
    BoardError,
>)
    ensures
        match r {
            Ok(t) => exists|recs: Seq<(Vec<u8>, Vec<u8>)>|
                {
                    &&& #[trigger] crate::store::scan_consistent(
                        crate::store::store_contents(*db),
                        recs,
                    )
                    &&& views_of(t.0@) == page_of(decoded_seq(recs), page as int, page_size as int)
                    &&& t.1 == crate::pagination::spec_has_prev(page as int)
                    &&& t.2 == crate::pagination::spec_has_next(
                        page as int,
                        page_size as int,
                        tops_of(decoded_seq(recs)).len() as int,
                    )
                },
            Err(e) => e is Store,
        },
{
    match crate::store::store_scan(db) {
        Err(_) => Err(BoardError::Store),
        Ok(records) => {
            let t = page_query(&records, page, page_size);
            proof {
                let recs = records@;
                assert(crate::store::scan_consistent(crate::store::store_contents(*db), recs));
            }
            Ok(t)
        },
    }
}

/// The effect of a bump on the stored map: when a record sits under
/// `pid` and decodes, it is re-encoded with its timestamp set to `now`;
/// a missing or undecodable parent leaves the map unchanged (a dangling
/// reply is tolerated, not an error).
pub open spec fn bump_applied(m: Map<Seq<u8>, Seq<u8>>, pid: Seq<u8>, now: u64) -> Map<
    Seq<u8>,
    Seq<u8>,
> {
    if m.contains_key(pid) && decode_spec(m[pid]) is Some {
        let par = decode_spec(m[pid]).unwrap();
        m.insert(
            pid,
            encode_spec(
                PostView {
                    id: par.id,
                    parent_id: par.parent_id,
                    title: par.title,
                    message: par.message,
                    file: par.file,
                    timestamp: now,
                },
            ),
        )
    } else {
        m
    }
}

/// The effect of creating post `p` on the stored map: the new record is
/// stored under its id, then, for a reply, the parent is bumped to the
/// new post's timestamp.
pub open spec fn apply_create(m: Map<Seq<u8>, Seq<u8>>, p: PostView) -> Map<Seq<u8>, Seq<u8>> {
    let m1 = m.insert(p.id, encode_spec(p));
    match p.parent_id {
        None => m1,
        Some(pid) => bump_applied(m1, pid, p.timestamp),
    }
}

/// Relies on `uuid::Uuid::new_v4` and its `Display` form: a fresh random
/// version-4 UUID, rendered hyphenated as 36 ASCII characters. The value
/// is random, so nothing beyond its length is assumed.
#[verifier::external_body]
fn fresh_id() -> (r: Vec<u8>)
    ensures
        r@.len() == 36,
{
    uuid::Uuid::new_v4().to_string().into_bytes()
}

/// Create a post: allocate a fresh id, persist the record, bump the
/// parent when this is a reply to a stored post, and flush so the writes
/// are durable before returning. On success the store has changed by
/// exactly `apply_create`; a store failure is reported as `Store` and
/// may leave only a prefix of the writes applied.
pub fn create(
    db: &mut sled::Db,
    title: Vec<u8>,
    message: Vec<u8>,
    parent_id: Option<Vec<u8>>,
    file: Option<Vec<u8>>,
    now: u64,
) -> (r: Result<Post, BoardError>)
    ensures
        match r {
            Ok(p) => {
                &&& p@.parent_id == opt_bytes_view(parent_id)
                &&& p@.title == title@
                &&& p@.message == message@
                &&& p@.file == opt_bytes_view(file)
                &&& p@.timestamp == now
                &&& crate::store::store_contents(*final(db)) == apply_create(
                    crate::store::store_contents(*old(db)),
                    p@,
                )
            },
            Err(e) => e is Store,
        },
{
    let ghost m0 = crate::store::store_contents(*db);
    let id = fresh_id();
    let post = Post { id, parent_id, title, message, file, timestamp: now };
    let bytes = encode_post(&post);
    match crate::store::store_put(db, &post.id, &bytes) {
        Err(_) => {
            return Err(BoardError::Store);
        },
        Ok(_) => {},
    }
    let ghost m1 = crate::store::store_contents(*db);
    proof {
        assert(m1 == m0.insert(post@.id, encode_spec(post@)));
    }
    match &post.parent_id {
        None => {},
        Some(pid) => {
            match crate::store::store_get(db, pid) {
                Err(_) => {
                    return Err(BoardError::Store);
                },
                Ok(None) => {
                    proof {
                        assert(crate::store::store_contents(*db) == bump_applied(m1, pid@, now));
                    }
                },
                Ok(Some(vb)) => {
                    match decode_post(&vb) {
                        None => {
                            proof {
                                assert(crate::store::store_contents(*db) == bump_applied(
                                    m1,
                                    pid@,
                                    now,
                                ));
                            }
                        },
                        Some(parent) => {
                            let mut parent = parent;
                            parent.timestamp = now;
                            let pb = encode_post(&parent);
                            match crate::store::store_put(db, pid, &pb) {
                                Err(_) => {
                                    return Err(BoardError::Store);
                                },
                                Ok(_) => {},
                            }
                            proof {
                                assert(crate::store::store_contents(*db) == bump_applied(
                                    m1,
                                    pid@,
                                    now,
                                ));
                            }
                        },
                    }
                },
            }
        },
    }
    match crate::store::store_flush(db) {
        Err(_) => {
            return Err(BoardError::Store);
        },
        Ok(_) => {},
    }
    proof {
        assert(crate::store::store_contents(*db) == apply_create(m0, post@));
    }
    Ok(post)
}

/// Where the caller routes after `create`: a reply routes to its
/// parent's thread, a new OP to its own id.
pub open spec fn redirect_spec(p: PostView) -> Seq<u8> {
    match p.parent_id {
        Some(pid) => pid,
        None => p.id,
    }
}

/// The effective redirect target of a freshly created post.
pub fn redirect_target(p: &Post) -> (r: &Vec<u8>)
    ensures
        r@ == redirect_spec(p@),
{
    match &p.parent_id {
        Some(pid) => pid,
        None => &p.id,
    }
}

/// A page of the listing holds exactly the clamped window's worth of
/// posts: the slice runs between the clamped window bounds over the
/// number of top-level posts.
pub proof fn lemma_page_of_len(ps: Seq<PostView>, page: int, page_size: int)
    requires
        page >= 0,
        page_size >= 0,
    ensures
        ({
            let total = tops_of(ps).len() as int;
            let lo = crate::pagination::clamp_to(
                crate::pagination::window_start(page, page_size),
                total,
            );
            let hi = crate::pagination::clamp_to(
                crate::pagination::window_end(page, page_size),
                total,
            );
            page_of(ps, page, page_size).len() == hi - lo
        }),
{
    lemma_sort_desc_ensures(tops_of(ps));
    assert(crate::pagination::window_start(page, page_size) >= 0 && crate::pagination::window_end(
        page,
        page_size,
    ) >= crate::pagination::window_start(page, page_size)) by (nonlinear_arith)
        requires
            page >= 0,
            page_size >= 0,
    ;
}

/// The stored map after a sequence of posts is created, in order.
pub open spec fn apply_creates(m: Map<Seq<u8>, Seq<u8>>, rs: Seq<PostView>) -> Map<Seq<u8>, Seq<u8>>
    decreases rs.len(),
{
    if rs.len() == 0 {
        m
    } else {
        apply_create(apply_creates(m, rs.drop_last()), rs.last())
    }
}

/// One reply to a stored, decodable OP record leaves the OP stored with
/// the same fields and the reply's timestamp.
proof fn lemma_bump_step(m: Map<Seq<u8>, Seq<u8>>, op_id: Seq<u8>, op: PostView, r: PostView)
    requires
        m.contains_key(op_id),
        decode_spec(m[op_id]) == Some(op),
        encodable(op),
        r.parent_id == Some(op_id),
        r.id != op_id,
    ensures
        apply_create(m, r).contains_key(op_id),
        decode_spec(apply_create(m, r)[op_id]) == Some(
            PostView {
                id: op.id,
                parent_id: op.parent_id,
                title: op.title,
                message: op.message,
                file: op.file,
                timestamp: r.timestamp,
            },
        ),
{
    let m1 = m.insert(r.id, encode_spec(r));
    assert(m1[op_id] == m[op_id]);
    let bumped = PostView {
        id: op.id,
        parent_id: op.parent_id,
        title: op.title,
        message: op.message,
        file: op.file,
        timestamp: r.timestamp,
    };
    lemma_round_trip(bumped);
    assert(apply_create(m, r) == m1.insert(op_id, encode_spec(bumped)));
}

/// Bump monotonicity: replies to the same OP arriving with strictly
/// increasing timestamps leave the OP's bump timestamp equal to the
/// timestamp of the last reply applied, with all its other fields
/// untouched. Each reply names the OP's stored key as its parent and
/// carries a fresh id of its own.
pub proof fn lemma_bump_monotonic(
    m: Map<Seq<u8>, Seq<u8>>,
    op_id: Seq<u8>,
    op: PostView,
    rs: Seq<PostView>,
)
    requires
        m.contains_key(op_id),
        decode_spec(m[op_id]) == Some(op),
        encodable(op),
        rs.len() > 0,
        forall|i: int|
            0 <= i < rs.len() ==> (#[trigger] rs[i]).parent_id == Some(op_id) && rs[i].id != op_id,
        forall|i: int, j: int|
            #![trigger rs[i], rs[j]]
            0 <= i < j < rs.len() ==> rs[i].timestamp < rs[j].timestamp,
    ensures
        apply_creates(m, rs).contains_key(op_id),
        decode_spec(apply_creates(m, rs)[op_id]) == Some(
            PostView {
                id: op.id,
                parent_id: op.parent_id,
                title: op.title,
                message: op.message,
                file: op.file,
                timestamp: rs.last().timestamp,
            },
        ),
    decreases rs.len(),
{
    if rs.len() == 1 {
        assert(apply_creates(m, rs.drop_last()) == m);
        lemma_bump_step(m, op_id, op, rs.last());
    } else {
        let prefix = rs.drop_last();
        assert(forall|i: int|
            0 <= i < prefix.len() ==> (#[trigger] prefix[i]).parent_id == Some(op_id)
                && prefix[i].id != op_id) by {
            assert(forall|i: int| 0 <= i < prefix.len() ==> prefix[i] == rs[i]);
        }
        lemma_bump_monotonic(m, op_id, op, prefix);
        let mid = apply_creates(m, prefix);
        let op_mid = PostView {
            id: op.id,
            parent_id: op.parent_id,
            title: op.title,
            message: op.message,
            file: op.file,
            timestamp: prefix.last().timestamp,
        };
        lemma_bump_step(mid, op_id, op_mid, rs.last());
    }
}

/// Flat threading: a record whose parent link names anything but the
/// queried OP's id — in particular a reply's id, when someone replies to
/// a reply — never appears in that OP's reply list.
pub proof fn lemma_flat_threading(ps: Seq<PostView>, op_id: Seq<u8>, r: PostView)
    requires
        r.parent_id matches Some(q) && q != op_id,
    ensures
        !replies_to(ps, op_id).contains(r),
{
    broadcast use vstd::seq_lib::group_filter_ensures;

    if replies_to(ps, op_id).contains(r) {
        let i = choose|i: int|
            0 <= i < replies_to(ps, op_id).len() && replies_to(ps, op_id)[i] == r;
        assert(is_reply_to(replies_to(ps, op_id)[i], op_id));
    }
}

} // verus!
