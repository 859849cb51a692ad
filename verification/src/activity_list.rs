use vstd::prelude::*;
use vstd::string::StrSliceExecFns;

use crate::model::{Activity, activity_named};
use crate::text::{chars_of, concat3, trim, trimmed};

verus! {

/// The pieces of `s` between commas, in order, as `str::split(",")` gives them
/// (one piece more than there are commas; pieces may be empty).
pub open spec fn split_commas(s: Seq<char>) -> Seq<Seq<char>>
    decreases s.len(),
{
    if s.len() == 0 {
        seq![Seq::<char>::empty()]
    } else {
        let pieces = split_commas(s.drop_last());
        if s.last() == ',' {
            pieces.push(Seq::<char>::empty())
        } else {
            pieces.update(pieces.len() - 1, pieces.last().push(s.last()))
        }
    }
}

/// The activities that the pieces name once each non-empty piece is trimmed, or the first
/// trimmed piece that names none.
pub open spec fn activities_of_pieces(pieces: Seq<Seq<char>>) -> Result<Seq<Activity>, Seq<char>>
    decreases pieces.len(),
{
    if pieces.len() == 0 {
        Ok(Seq::empty())
    } else {
        match activities_of_pieces(pieces.drop_last()) {
            Err(bad) => Err(bad),
            Ok(found) => {
                let piece = pieces.last();
                if piece.len() == 0 {
                    Ok(found)
                } else {
                    match activity_named(trimmed(piece)) {
                        Some(a) => Ok(found.push(a)),
                        None => Err(trimmed(piece)),
                    }
                }
            },
        }
    }
}

/// The activities listed, comma separated, in `s`: empty pieces are skipped and the others
/// are trimmed and read as activity names; `Err` holds the first trimmed piece that is
/// not one.
pub open spec fn listed_activities(s: Seq<char>) -> Result<Seq<Activity>, Seq<char>> {
    activities_of_pieces(split_commas(s))
}

/// There is always at least one piece.
pub proof fn lemma_split_commas_nonempty(s: Seq<char>)
    ensures
        split_commas(s).len() >= 1,
    decreases s.len(),
{
    if s.len() > 0 {
        lemma_split_commas_nonempty(s.drop_last());
    }
}

/// The pieces joined back together with a comma between each two.
pub open spec fn join_commas(pieces: Seq<Seq<char>>) -> Seq<char>
    decreases pieces.len(),
{
    if pieces.len() <= 1 {
        if pieces.len() == 0 {
            Seq::empty()
        } else {
            pieces[0]
        }
    } else {
        join_commas(pieces.drop_last()) + seq![','] + pieces.last()
    }
}

/// Splitting at commas loses nothing: no piece holds a comma, and joining the pieces
/// with commas gives back the text.
pub proof fn lemma_split_commas_join(s: Seq<char>)
    ensures
        join_commas(split_commas(s)) == s,
        forall|k: int|
            0 <= k < split_commas(s).len() ==> !(#[trigger] split_commas(s)[k]).contains(','),
    decreases s.len(),
{
    lemma_split_commas_nonempty(s);
    if s.len() == 0 {
        assert(split_commas(s) =~= seq![Seq::<char>::empty()]);
        assert(join_commas(split_commas(s)) =~= s);
    } else {
        let rest = s.drop_last();
        let pieces = split_commas(rest);
        lemma_split_commas_join(rest);
        lemma_split_commas_nonempty(rest);
        let c = s.last();
        if c == ',' {
            let all = pieces.push(Seq::<char>::empty());
            assert(all.drop_last() =~= pieces);
            assert(join_commas(all) =~= s);
            assert forall|k: int| 0 <= k < all.len() implies !(#[trigger] all[k]).contains(',') by {
                if k < pieces.len() {
                    assert(all[k] == pieces[k]);
                }
            }
        } else {
            let last = pieces.last().push(c);
            let all = pieces.update(pieces.len() - 1, last);
            if pieces.len() == 1 {
                assert(join_commas(pieces) == pieces[0]);
                assert(join_commas(all) =~= s);
            } else {
                assert(all.drop_last() =~= pieces.drop_last());
                assert(join_commas(all) =~= join_commas(pieces.drop_last()) + seq![','] + last);
                assert(join_commas(pieces) == join_commas(pieces.drop_last()) + seq![',']
                    + pieces.last());
                assert(s =~= rest.push(c));
                assert(join_commas(all) =~= s);
            }
            assert forall|k: int| 0 <= k < all.len() implies !(#[trigger] all[k]).contains(',') by {
                if k < pieces.len() - 1 {
                    assert(all[k] == pieces[k]);
                } else {
                    assert(!pieces[k].contains(','));
                    if all[k].contains(',') {
                        let j = choose|j: int| 0 <= j < all[k].len() && all[k][j] == ',';
                        if j < pieces[k].len() {
                            assert(pieces[k][j] == ',');
                        }
                    }
                }
            }
        }
    }
}

/// A text without commas is a single piece.
pub proof fn lemma_split_without_commas(s: Seq<char>)
    requires
        !s.contains(','),
    ensures
        split_commas(s) == seq![s],
    decreases s.len(),
{
    if s.len() > 0 {
        let rest = s.drop_last();
        assert(!rest.contains(',')) by {
            if rest.contains(',') {
                let j = choose|j: int| 0 <= j < rest.len() && rest[j] == ',';
                assert(s[j] == ',');
            }
        }
        lemma_split_without_commas(rest);
        assert(s[s.len() - 1] != ',');
        assert(rest.push(s.last()) =~= s);
        assert(seq![rest].update(0, rest.push(s.last())) =~= seq![s]);
    } else {
        assert(s =~= Seq::<char>::empty());
    }
}

/// What the activity list read so far says: the activities found, or the error text of
/// the first piece that names none.
pub open spec fn list_state_matches(
    state: Result<Seq<Activity>, Seq<char>>,
    found: Seq<Activity>,
    failure: Option<String>,
) -> bool {
    match failure {
        None => state == Ok::<Seq<Activity>, Seq<char>>(found),
        Some(msg) => state is Err && msg@ == "'"@ + state->Err_0 + "' is not a valid Activity"@,
    }
}

/// Reads one more piece of an activity list.
fn absorb_piece(
    done: Ghost<Seq<Seq<char>>>,
    piece: &str,
    found: &mut Vec<Activity>,
    failure: &mut Option<String>,
)
    requires
        list_state_matches(activities_of_pieces(done@), old(found)@, *old(failure)),
    ensures
        list_state_matches(activities_of_pieces(done@.push(piece@)), final(found)@, *final(failure)),
{
    let ghost all = done@.push(piece@);
    assert(all.drop_last() =~= done@);
    if failure.is_none() && piece.unicode_len() > 0 {
        let t = trim(piece);
        match Activity::parse(t) {
            Ok(a) => {
                found.push(a);
            },
            Err(_) => {
                *failure = Some(concat3("'", t, "' is not a valid Activity"));
            },
        }
    }
}

/// Reads the comma-separated activity list `s`. An unreadable piece gives its error,
/// `'<piece>' is not a valid Activity`.
pub fn parse_activity_list(s: &str) -> (res: Result<Vec<Activity>, String>)
    ensures
        res is Ok <==> listed_activities(s@) is Ok,
        res matches Ok(v) ==> listed_activities(s@) == Ok::<Seq<Activity>, Seq<char>>(v@),
        res matches Err(msg) ==> msg@ == "'"@ + listed_activities(s@)->Err_0
            + "' is not a valid Activity"@,
{
    let v = chars_of(s);
    let n = v.len();
    let mut found: Vec<Activity> = Vec::new();
    let mut failure: Option<String> = None;
    let mut start: usize = 0;
    let mut i: usize = 0;
    let ghost mut done: Seq<Seq<char>> = Seq::empty();
    proof {
        assert(s@.take(0) =~= Seq::<char>::empty());
    }
    while i < n
        invariant
            n == s@.len(),
            v@ == s@,
            start <= i <= n,
            split_commas(s@.take(i as int)) == done.push(s@.subrange(start as int, i as int)),
            list_state_matches(activities_of_pieces(done), found@, failure),
        decreases n - i,
    {
        proof {
            assert(s@.take(i + 1).drop_last() =~= s@.take(i as int));
        }
        if v[i] == ',' {
            let piece = s.substring_char(start, i);
            absorb_piece(Ghost(done), piece, &mut found, &mut failure);
            proof {
                done = done.push(piece@);
                assert(s@.subrange(i + 1, i + 1) =~= Seq::<char>::empty());
            }
            start = i + 1;
        } else {
            proof {
                assert(s@.subrange(start as int, i as int).push(s@[i as int]) =~= s@.subrange(
                    start as int,
                    i + 1,
                ));
                assert(done.push(s@.subrange(start as int, i as int)).update(
                    done.len() as int,
                    s@.subrange(start as int, i + 1),
                ) =~= done.push(s@.subrange(start as int, i + 1)));
            }
        }
        i = i + 1;
    }
    proof {
        assert(s@.take(n as int) =~= s@);
    }
    let piece = s.substring_char(start, n);
    absorb_piece(Ghost(done), piece, &mut found, &mut failure);
    match failure {
        Some(msg) => Err(msg),
        None => Ok(found),
    }
}

} // verus!
