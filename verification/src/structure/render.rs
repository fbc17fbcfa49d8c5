use vstd::prelude::*;
use vstd::string::to_string_from_display_ensures;

verus! {

/// The text that stands between two neighbouring elements: `" -> "`.
pub open spec fn arrow() -> Seq<char> {
    seq![' ', '-', '>', ' ']
}

/// The parts in order, with an arrow between each two neighbours and none at
/// either end.
pub open spec fn joined(parts: Seq<Seq<char>>) -> Seq<char>
    decreases parts.len(),
{
    if parts.len() == 0 {
        Seq::empty()
    } else if parts.len() == 1 {
        parts[0]
    } else {
        joined(parts.drop_last()) + arrow() + parts.last()
    }
}

/// The character sequences of the given strings, one for one.
pub open spec fn texts_of(strings: Seq<String>) -> Seq<Seq<char>> {
    Seq::new(strings.len(), |i: int| strings[i]@)
}

/// `texts` holds, position by position, a string form that `Display` gives
/// for the element of `items` at that position.
pub open spec fn displays<T: std::fmt::Display>(items: Seq<T>, texts: Seq<String>) -> bool {
    &&& texts.len() == items.len()
    &&& forall|i: int|
        0 <= i < items.len() ==> to_string_from_display_ensures::<T>(&items[i], #[trigger] texts[i])
}

/// `out` is a rendering of `items`: the elements' string forms joined by arrows.
pub open spec fn renders_as<T: std::fmt::Display>(items: Seq<T>, out: Seq<char>) -> bool {
    exists|texts: Seq<String>| displays(items, texts) && out == #[trigger] joined(texts_of(texts))
}

/// Appends `tail` to `text` by `String::push_str`, which adds the characters
/// of its argument after those already there and changes nothing else.
#[verifier::external_body]
fn push_text(text: &mut String, tail: &str)
    ensures
        final(text)@ == old(text)@ + tail@,
{
    text.push_str(tail);
}

/// Joins the strings in order with `" -> "` between neighbours.
pub fn join_texts(texts: &Vec<String>) -> (out: String)
    ensures
        out@ == joined(texts_of(texts@)),
{
    let mut out = String::new();
    let mut i: usize = 0;
    while i < texts.len()
        invariant
            i <= texts.len(),
            out@ == joined(texts_of(texts@.take(i as int))),
        decreases texts.len() - i,
    {
        proof {
            reveal_strlit(" -> ");
            let before = texts_of(texts@.take(i as int));
            let now = texts_of(texts@.take(i + 1));
            assert(now.drop_last() == before);
            assert(now.last() == texts@[i as int]@);
            assert(" -> "@ == arrow());
        }
        if i > 0 {
            push_text(&mut out, " -> ");
        }
        push_text(&mut out, texts[i].as_str());
        i += 1;
    }
    proof {
        assert(texts@.take(texts@.len() as int) == texts@);
    }
    out
}

/// Nothing renders as the empty text, and one element as its string form alone.
pub proof fn lemma_render_small<T: std::fmt::Display>(items: Seq<T>, out: Seq<char>)
    requires
        renders_as(items, out),
        items.len() <= 1,
    ensures
        items.len() == 0 ==> out == Seq::<char>::empty(),
        items.len() == 1 ==> exists|text: String|
            to_string_from_display_ensures::<T>(&items[0], text) && out == #[trigger] text@,
{
    let texts = choose|texts: Seq<String>|
        displays(items, texts) && out == #[trigger] joined(texts_of(texts));
    if items.len() == 1 {
        assert(to_string_from_display_ensures::<T>(&items[0], texts[0]));
        assert(out == texts[0]@);
    }
}

} // verus!
