//! Parsing of the watched-services configuration value: a comma-separated
//! list of service names.

use vstd::prelude::*;
use vstd::string::*;

verus! {

/// The pieces joined back together with one comma between each pair.
pub open spec fn spec_join_commas(pieces: Seq<Seq<char>>) -> Seq<char>
    decreases pieces.len(),
{
    if pieces.len() == 0 {
        Seq::empty()
    } else if pieces.len() == 1 {
        pieces[0]
    } else {
        spec_join_commas(pieces.drop_last()) + seq![','] + pieces.last()
    }
}

/// Views of a list of owned strings.
pub open spec fn pieces_v(pieces: Seq<String>) -> Seq<Seq<char>> {
    pieces.map_values(|p: String| p@)
}

/// Extending the last piece by one character extends the joined text by
/// that character.
proof fn lemma_join_snoc(pieces: Seq<Seq<char>>, cur: Seq<char>, c: char)
    ensures
        spec_join_commas(pieces.push(cur.push(c))) == spec_join_commas(pieces.push(cur)).push(c),
{
    if pieces.len() == 0 {
        assert(pieces.push(cur.push(c))[0] == cur.push(c));
        assert(pieces.push(cur)[0] == cur);
    } else {
        assert(pieces.push(cur.push(c)).drop_last() =~= pieces);
        assert(pieces.push(cur).drop_last() =~= pieces);
        assert(pieces.push(cur.push(c)).last() == cur.push(c));
        assert(pieces.push(cur).last() == cur);
        assert(spec_join_commas(pieces) + seq![','] + cur.push(c) =~= (spec_join_commas(pieces)
            + seq![','] + cur).push(c));
    }
}

/// Splits the configured list on commas, keeping empty pieces: the
/// returned names are comma-free and joining them with commas gives back
/// the input, which pins the split down. An empty input yields one empty
/// name, as the original list syntax has it.
pub fn split_commas(s: &str) -> (r: Vec<String>)
    ensures
        r@.len() >= 1,
        spec_join_commas(pieces_v(r@)) == s@,
        forall|i: int| 0 <= i < r@.len() ==> !(#[trigger] pieces_v(r@)[i]).contains(','),
{
    let len = s.unicode_len();
    let mut pieces: Vec<String> = Vec::new();
    let mut start: usize = 0;
    let mut i: usize = 0;
    proof {
        assert(pieces_v(pieces@) =~= Seq::<Seq<char>>::empty());
        assert(s@.take(0) =~= Seq::<char>::empty());
        assert(s@.subrange(0, 0) =~= Seq::<char>::empty());
    }
    while i < len
        invariant
            len == s@.len(),
            0 <= start as int <= i as int <= len as int,
            s@.take(i as int) == spec_join_commas(
                pieces_v(pieces@).push(s@.subrange(start as int, i as int)),
            ),
            forall|m: int|
                0 <= m < pieces@.len() ==> !(#[trigger] pieces_v(pieces@)[m]).contains(','),
            forall|k: int| start as int <= k < i as int ==> s@[k] != ',',
        decreases len - i,
    {
        let ghost pv = pieces_v(pieces@);
        let ghost cur = s@.subrange(start as int, i as int);
        let c = s.get_char(i);
        if c == ',' {
            let piece = s.substring_char(start, i).to_owned();
            pieces.push(piece);
            proof {
                assert(pieces_v(pieces@) =~= pv.push(cur));
                assert(pv.push(cur).push(Seq::<char>::empty()).drop_last() =~= pv.push(cur));
                assert(spec_join_commas(pv.push(cur).push(Seq::<char>::empty()))
                    =~= spec_join_commas(pv.push(cur)) + seq![','] + Seq::<char>::empty());
                assert(spec_join_commas(pv.push(cur)) + seq![','] + Seq::<char>::empty()
                    =~= spec_join_commas(pv.push(cur)).push(','));
                assert(s@.take(i + 1) =~= s@.take(i as int).push(s@[i as int]));
                assert(s@.subrange(i + 1, i + 1) =~= Seq::<char>::empty());
                assert forall|m: int|
                    0 <= m < pieces@.len() implies !(#[trigger] pieces_v(pieces@)[m]).contains(
                    ',',
                ) by {
                    if m < pv.len() {
                        assert(pieces_v(pieces@)[m] == pv[m]);
                    } else {
                        assert(pieces_v(pieces@)[m] == cur);
                        if cur.contains(',') {
                            let w = choose|w: int| 0 <= w < cur.len() && cur[w] == ',';
                            assert(s@[start + w] == ',');
                        }
                    }
                }
            }
            start = i + 1;
        } else {
            proof {
                lemma_join_snoc(pv, cur, s@[i as int]);
                assert(s@.subrange(start as int, i + 1) =~= cur.push(s@[i as int]));
                assert(s@.take(i + 1) =~= s@.take(i as int).push(s@[i as int]));
            }
        }
        i += 1;
    }
    let ghost pv_old = pieces_v(pieces@);
    let ghost cur = s@.subrange(start as int, len as int);
    let last_piece = s.substring_char(start, len).to_owned();
    pieces.push(last_piece);
    proof {
        assert(last_piece@ == cur);
        let pv = pieces_v(pieces@);
        assert(pv =~= pv_old.push(cur));
        assert(s@.take(len as int) =~= s@);
        assert forall|m: int| 0 <= m < pv.len() implies !(#[trigger] pv[m]).contains(',') by {
            if m == pv.len() - 1 {
                assert(pv[m] == cur);
                if cur.contains(',') {
                    let w = choose|w: int| 0 <= w < cur.len() && cur[w] == ',';
                    assert(s@[start + w] == ',');
                }
            } else {
                assert(pv[m] == pv_old[m]);
            }
        }
    }
    pieces
}

} // verus!
