//! Text for debugging: the values of a set between two brackets, separated by commas.

use vstd::prelude::*;
use vstd::string::StringExecFns;
use std::fmt::Debug;

verus! {

/// `texts` with a comma and a space between each two neighbours.
pub open spec fn joined(texts: Seq<Seq<char>>) -> Seq<char>
    decreases texts.len(),
{
    if texts.len() == 0 {
        Seq::empty()
    } else if texts.len() == 1 {
        texts[0]
    } else {
        joined(texts.drop_last()) + seq![',', ' '] + texts.last()
    }
}

/// `texts`, joined, between `open` and `close`.
pub open spec fn listing(open: Seq<char>, texts: Seq<Seq<char>>, close: Seq<char>) -> Seq<char> {
    open + joined(texts) + close
}

/// The characters of each of `texts`.
pub open spec fn views(texts: Seq<String>) -> Seq<Seq<char>> {
    Seq::new(texts.len(), |i: int| texts[i]@)
}

/// The `Debug` text of `value`, as `format!("{:?}", ..)` gives it. What it
/// holds is up to the impl of `Debug` for `T`, so nothing is said of it.
#[verifier::external_body]
pub(crate) fn debug_text<T: Debug>(value: &T) -> (text: String) {
    format!("{:?}", value)
}

/// The listing of `texts` between `open` and `close`: with square brackets, `[a, b, c]`.
pub fn list_texts(open: &str, texts: &Vec<String>, close: &str) -> (out: String)
    ensures
        out@ == listing(open@, views(texts@), close@),
{
    let mut out = String::new();
    out.append(open);
    assert(out@ =~= open@ + joined(views(texts@).take(0)));
    let mut i: usize = 0;
    while i < texts.len()
        invariant
            i <= texts.len(),
            out@ == open@ + joined(views(texts@).take(i as int)),
        decreases texts.len() - i,
    {
        let ghost done = views(texts@).take(i as int);
        let ghost more = views(texts@).take(i + 1);
        proof {
            assert(more.drop_last() =~= done);
            assert(more.last() == texts@[i as int]@);
        }
        if i > 0 {
            out.append(", ");
        }
        out.append(texts[i].as_str());
        proof {
            if i == 0 {
                assert(joined(done) =~= Seq::<char>::empty());
                assert(out@ =~= open@ + joined(more));
            } else {
                reveal_strlit(", ");
                assert(", "@ =~= seq![',', ' ']);
                assert(more.len() == i + 1);
                assert(joined(more) == joined(done) + seq![',', ' '] + more.last());
                assert(out@ =~= open@ + joined(more));
            }
        }
        i = i + 1;
    }
    proof {
        assert(views(texts@).take(i as int) =~= views(texts@));
    }
    out.append(close);
    out
}

} // verus!
