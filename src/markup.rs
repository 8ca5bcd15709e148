use vstd::prelude::*;

verus! {

/// Prepares text for markup. The characters `&`, `<`, `>`, `"` and `'` are
/// written as they are, like every other character, so the result equals
/// the input.
pub fn escape_html(text: &str) -> (r: String)
    ensures
        r@ == text@,
{
    text.to_owned()
}

} // verus!
