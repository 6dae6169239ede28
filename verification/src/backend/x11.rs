use vstd::prelude::*;
use vstd::string::*;

verus! {

/// What `String::from_utf8_lossy` returns for `bytes`.
pub uninterp spec fn utf8_lossy_of(bytes: Seq<u8>) -> Seq<char>;

/// Calls `String::from_utf8_lossy`, which decodes UTF-8 and puts U+FFFD in
/// place of every invalid sequence. The contract states the decoding of
/// valid input; for invalid input it only names the result.
#[verifier::external_body]
fn utf8_lossy(bytes: &[u8]) -> (r: String)
    ensures
        r@ == utf8_lossy_of(bytes@),
        vstd::utf8::valid_utf8(bytes@) ==> r@ == vstd::utf8::decode_utf8(bytes@),
{
    String::from_utf8_lossy(bytes).to_string()
}

/// `s` without its trailing NUL characters.
pub open spec fn trim_trailing_nul(s: Seq<char>) -> Seq<char>
    decreases s.len(),
{
    if s.len() > 0 && s.last() == '\0' {
        trim_trailing_nul(s.drop_last())
    } else {
        s
    }
}

/// The characters of `s` after its last NUL (all of `s` when it has none).
pub open spec fn last_segment(s: Seq<char>) -> Seq<char>
    decreases s.len(),
{
    if s.len() == 0 || s.last() == '\0' {
        Seq::empty()
    } else {
        last_segment(s.drop_last()).push(s.last())
    }
}

/// The class named by a `WM_CLASS` value: the last non-empty of its
/// NUL-separated parts, or `"x11-window"` when there is none.
pub open spec fn class_of_wm_class(text: Seq<char>) -> Seq<char> {
    let t = trim_trailing_nul(text);
    if t.len() == 0 {
        "x11-window"@
    } else {
        last_segment(t)
    }
}

/// The window class held in the raw bytes of a `WM_CLASS` property.
pub fn window_class_from_wm_class(value: &[u8]) -> (r: String)
    ensures
        r@ == class_of_wm_class(utf8_lossy_of(value@)),
{
    let text = utf8_lossy(value);
    let s = text.as_str();
    let n = s.unicode_len();
    let mut end: usize = n;
    assert(s@.take(n as int) =~= s@);
    while end > 0 && s.get_char(end - 1) == '\0'
        invariant
            n == s@.len(),
            end <= n,
            trim_trailing_nul(s@) == trim_trailing_nul(s@.take(end as int)),
        decreases end,
    {
        assert(s@.take(end as int).drop_last() =~= s@.take(end - 1));
        end -= 1;
    }
    if end == 0 {
        assert(s@.take(0) =~= Seq::<char>::empty());
        return String::from_str("x11-window");
    }
    assert(trim_trailing_nul(s@.take(end as int)) == s@.take(end as int));
    let mut start: usize = end;
    while start > 0 && s.get_char(start - 1) != '\0'
        invariant
            n == s@.len(),
            start <= end <= n,
            last_segment(s@.take(end as int)) == last_segment(s@.take(start as int)) + s@.subrange(
                start as int,
                end as int,
            ),
        decreases start,
    {
        let ghost t = s@.take(start as int);
        assert(t.drop_last() =~= s@.take(start - 1));
        assert(s@.subrange(start - 1, end as int) =~= seq![t.last()] + s@.subrange(
            start as int,
            end as int,
        ));
        assert(last_segment(t) == last_segment(t.drop_last()).push(t.last()));
        assert(last_segment(t.drop_last()).push(t.last()) + s@.subrange(start as int, end as int)
            =~= last_segment(t.drop_last()) + s@.subrange(start - 1, end as int));
        start -= 1;
    }
    assert(last_segment(s@.take(start as int)) =~= Seq::<char>::empty());
    assert(Seq::<char>::empty() + s@.subrange(start as int, end as int) =~= s@.subrange(
        start as int,
        end as int,
    ));
    let part = s.substring_char(start, end);
    String::from_str(part)
}

/// Only mapped (viewable) windows that do not bypass the window manager
/// (`override_redirect`) are managed.
pub fn should_manage(override_redirect: bool, viewable: bool) -> (r: bool)
    ensures
        r == (!override_redirect && viewable),
{
    !(override_redirect || !viewable)
}

/// How long after the engine itself moved a window a configure
/// notification is still taken as the echo of that move, in nanoseconds.
pub const PROGRAMMATIC_MOVE_WINDOW_NANOS: u128 = 100_000_000;

/// A move of a window counts as the user dragging it unless the engine
/// moved that window itself less than 100 ms before. `since_programmatic_move`
/// is the time in nanoseconds since the engine last moved the window, if it
/// ever did.
pub fn is_user_drag(since_programmatic_move: Option<u128>) -> (r: bool)
    ensures
        r == !(since_programmatic_move matches Some(t) && t < PROGRAMMATIC_MOVE_WINDOW_NANOS),
{
    match since_programmatic_move {
        Some(t) => !(t < PROGRAMMATIC_MOVE_WINDOW_NANOS),
        None => true,
    }
}

} // verus!
