//! What field masks are in JSON.
use vstd::prelude::*;
use crate::wkt::{
    camel_text, is_white, join_commas, mask_camel, mask_camels, mask_json, mask_path_valid,
    mask_paths, mask_snake, mask_snakes, parses, snake_text, spells, split_commas, strings_view,
    texts_view, trimmed_text,
};

verus! {

/// Parts are joined by one comma between each two of them.
pub proof fn law_joined(parts: Seq<Seq<char>>, p: Seq<char>)
    ensures
        join_commas(Seq::empty()).len() == 0,
        parts.len() == 0 ==> join_commas(parts.push(p)) == p,
        parts.len() > 0 ==> join_commas(parts.push(p)) == join_commas(parts) + seq![','] + p,
{
    reveal_strlit(",");
    assert(","@ =~= seq![',']);
    assert(parts.push(p).drop_last() =~= parts);
}

/// What stands between the commas of a text holds none, and joined it is the text.
pub proof fn law_split(s: Seq<char>)
    ensures
        split_commas(s).len() > 0,
        join_commas(split_commas(s)) == s,
        forall|i: int, j: int|
            0 <= i < split_commas(s).len() && 0 <= j < split_commas(s)[i].len() ==> (
            #[trigger] split_commas(s)[i][j]) != ',',
    decreases s.len(),
{
    let r = split_commas(s);
    if s.len() == 0 {
        assert(join_commas(r) =~= s);
    } else {
        let t = s.drop_last();
        let q = split_commas(t);
        law_split(t);
        let c = s.last();
        assert(s =~= t.push(c));
        if c == ',' {
            law_joined(q, Seq::empty());
            assert(join_commas(r) =~= t.push(c));
            assert forall|i: int, j: int| 0 <= i < r.len() && 0 <= j < r[i].len() implies (
            #[trigger] r[i][j]) != ',' by {
                assert(r[i] == q[i]);
                assert(q[i][j] != ',');
            }
        } else {
            let front = q.drop_last();
            assert(q =~= front.push(q.last()));
            law_joined(front, q.last());
            law_joined(front, q.last().push(c));
            assert(join_commas(r) =~= t.push(c));
            assert forall|i: int, j: int| 0 <= i < r.len() && 0 <= j < r[i].len() implies (
            #[trigger] r[i][j]) != ',' by {
                if i < front.len() {
                    assert(r[i] == q[i]);
                    assert(q[i][j] != ',');
                } else if j < q.last().len() {
                    assert(q[q.len() - 1][j] != ',');
                }
            }
        }
    }
}

/// Which characters are white space.
pub proof fn law_white(c: char)
    ensures
        is_white(c) <==> {
            ||| '\u{9}' <= c <= '\u{d}'
            ||| c == ' '
            ||| c == '\u{85}'
            ||| c == '\u{a0}'
            ||| c == '\u{1680}'
            ||| '\u{2000}' <= c <= '\u{200a}'
            ||| c == '\u{2028}'
            ||| c == '\u{2029}'
            ||| c == '\u{202f}'
            ||| c == '\u{205f}'
            ||| c == '\u{3000}'
        },
{
}

/// From `lo` to `hi` the text has no white space at its ends, and there is
/// nothing else outside.
pub open spec fn trims(s: Seq<char>, lo: int, hi: int) -> bool {
    &&& 0 <= lo <= hi <= s.len()
    &&& forall|i: int| 0 <= i < s.len() && !(lo <= i < hi) ==> is_white(#[trigger] s[i])
    &&& lo < hi ==> !is_white(s[lo]) && !is_white(s[hi - 1])
}

/// A trimmed text is the text without the white space at its ends.
pub proof fn law_trimmed(s: Seq<char>)
    ensures
        exists|lo: int, hi: int| #[trigger]
            trims(s, lo, hi) && trimmed_text(s) == s.subrange(lo, hi),
    decreases s.len(),
{
    if s.len() == 0 {
        assert(trims(s, 0, 0));
        assert(trimmed_text(s) =~= s.subrange(0, 0));
    } else if is_white(s.last()) {
        let t = s.drop_last();
        law_trimmed(t);
        let (lo, hi) = choose|lo: int, hi: int| #[trigger]
            trims(t, lo, hi) && trimmed_text(t) == t.subrange(lo, hi);
        assert forall|i: int| 0 <= i < s.len() && !(lo <= i < hi) implies is_white(
            #[trigger] s[i],
        ) by {
            if i < t.len() {
                assert(t[i] == s[i]);
            }
        }
        assert(trims(s, lo, hi));
        assert(s.subrange(lo, hi) =~= t.subrange(lo, hi));
    } else if is_white(s[0]) {
        let t = s.skip(1);
        law_trimmed(t);
        let (lo, hi) = choose|lo: int, hi: int| #[trigger]
            trims(t, lo, hi) && trimmed_text(t) == t.subrange(lo, hi);
        assert forall|i: int| 0 <= i < s.len() && !(lo + 1 <= i < hi + 1) implies is_white(
            #[trigger] s[i],
        ) by {
            if i > 0 {
                assert(t[i - 1] == s[i]);
            }
        }
        assert(trims(s, lo + 1, hi + 1));
        assert(s.subrange(lo + 1, hi + 1) =~= t.subrange(lo, hi));
    } else {
        assert(trims(s, 0, s.len() as int));
        assert(s.subrange(0, s.len() as int) =~= s);
    }
}

/// A mask has JSON where every one of its paths does. It is then the paths, their
/// words joined by capitals, in their order, with commas between them.
pub proof fn law_mask_text(paths: Seq<Seq<char>>)
    ensures
        mask_json(paths) is Ok <==> forall|i: int|
            0 <= i < paths.len() ==> mask_path_valid(#[trigger] paths[i]),
        mask_json(paths) matches Ok(t) ==> exists|parts: Seq<Seq<char>>|
            t == #[trigger] join_commas(parts) && parts.len() == paths.len() && forall|i: int|
                0 <= i < paths.len() ==> #[trigger] parts[i] == camel_text(paths[i]),
{
    lemma_camels(paths);
}

proof fn lemma_camels(paths: Seq<Seq<char>>)
    ensures
        mask_camels(paths) is Ok <==> forall|i: int|
            0 <= i < paths.len() ==> mask_path_valid(#[trigger] paths[i]),
        mask_camels(paths) matches Ok(parts) ==> parts.len() == paths.len() && forall|i: int|
            0 <= i < paths.len() ==> #[trigger] parts[i] == camel_text(paths[i]),
    decreases paths.len(),
{
    if paths.len() > 0 {
        let t = paths.drop_last();
        lemma_camels(t);
        if mask_camels(paths) is Ok {
            assert forall|i: int| 0 <= i < paths.len() implies mask_path_valid(
                #[trigger] paths[i],
            ) by {
                if i < t.len() {
                    assert(mask_path_valid(t[i]));
                }
            }
        } else if forall|i: int| 0 <= i < paths.len() ==> mask_path_valid(#[trigger] paths[i]) {
            assert forall|i: int| 0 <= i < t.len() implies mask_path_valid(#[trigger] t[i]) by {
                assert(mask_path_valid(paths[i]));
            }
            assert(mask_path_valid(paths[paths.len() - 1]));
        }
    }
}

/// What is said of a path that has no JSON, and of a text that spells no path.
pub proof fn law_mask_refused(path: Seq<char>)
    ensures
        match mask_camel(path) {
            Ok(t) => mask_path_valid(path) && t == camel_text(path),
            Err(e) => !mask_path_valid(path) && e
                == "FieldMask path does not round-trip through camelCase"@,
        },
        match mask_snake(path) {
            Ok(t) => camel_text(snake_text(path)) == path && t == snake_text(path),
            Err(e) => camel_text(snake_text(path)) != path && e
                == "FieldMask JSON path is not canonical lowerCamelCase"@,
        },
{
}

/// An empty text is a mask without paths. Any other is read as the trimmed parts
/// between its commas, in their order, with their words joined by underscores;
/// each part has to be one that comes back when they are joined by capitals.
pub proof fn law_mask_read(s: Seq<char>)
    ensures
        s.len() == 0 ==> (mask_paths(s) matches Ok(p) && p.len() == 0),
        s.len() > 0 ==> {
            &&& mask_paths(s) is Ok <==> forall|i: int|
                0 <= i < split_commas(s).len() ==> {
                    let t = trimmed_text(#[trigger] split_commas(s)[i]);
                    camel_text(snake_text(t)) == t
                }
            &&& mask_paths(s) matches Ok(p) ==> p.len() == split_commas(s).len() && forall|i: int|
                0 <= i < p.len() ==> #[trigger] p[i] == snake_text(
                    trimmed_text(split_commas(s)[i]),
                )
        },
{
    lemma_snakes(split_commas(s));
}

proof fn lemma_snakes(parts: Seq<Seq<char>>)
    ensures
        mask_snakes(parts) is Ok <==> forall|i: int|
            0 <= i < parts.len() ==> {
                let t = trimmed_text(#[trigger] parts[i]);
                camel_text(snake_text(t)) == t
            },
        mask_snakes(parts) matches Ok(p) ==> p.len() == parts.len() && forall|i: int|
            0 <= i < p.len() ==> #[trigger] p[i] == snake_text(trimmed_text(parts[i])),
    decreases parts.len(),
{
    if parts.len() > 0 {
        let q = parts.drop_last();
        lemma_snakes(q);
        if mask_snakes(parts) is Ok {
            assert forall|i: int| 0 <= i < parts.len() implies {
                let t = trimmed_text(#[trigger] parts[i]);
                camel_text(snake_text(t)) == t
            } by {
                if i < q.len() {
                    assert(camel_text(snake_text(trimmed_text(q[i]))) == trimmed_text(q[i]));
                }
            }
        } else if forall|i: int|
            0 <= i < parts.len() ==> {
                let t = trimmed_text(#[trigger] parts[i]);
                camel_text(snake_text(t)) == t
            } {
            assert forall|i: int| 0 <= i < q.len() implies {
                let t = trimmed_text(#[trigger] q[i]);
                camel_text(snake_text(t)) == t
            } by {
                let t = trimmed_text(parts[i]);
                assert(camel_text(snake_text(t)) == t);
            }
            let t = trimmed_text(parts[parts.len() - 1]);
            assert(camel_text(snake_text(t)) == t);
        }
    }
}

/// What is spelled is the text that is said, or the failure.
pub proof fn law_spells(r: Result<String, &'static str>, m: Result<Seq<char>, Seq<char>>)
    ensures
        spells(r, m) <==> match r {
            Ok(x) => m matches Ok(y) && x@ == y,
            Err(e) => m matches Err(y) && e@ == y,
        },
{
}

/// What is parsed is what is said, or the failure.
pub proof fn law_parses(
    r: Result<(i64, i32), &'static str>,
    m: Result<(i64, i32), Seq<char>>,
)
    ensures
        parses(r, m) <==> match r {
            Ok(x) => m matches Ok(y) && x == y,
            Err(e) => m matches Err(y) && e@ == y,
        },
{
}

/// Texts are taken one by one, in their order.
pub proof fn law_texts_view(a: Seq<&str>, b: Seq<String>)
    ensures
        texts_view(a).len() == a.len(),
        forall|i: int| 0 <= i < a.len() ==> #[trigger] texts_view(a)[i] == a[i]@,
        strings_view(b).len() == b.len(),
        forall|i: int| 0 <= i < b.len() ==> #[trigger] strings_view(b)[i] == b[i]@,
{
}

} // verus!
