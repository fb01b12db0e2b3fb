//! The launch-argument filter: which of the arguments that the process was
//! started with name markdown files.
//!
//! An argument is accepted by the shape of its name alone. Nothing is looked
//! up on disk, and an accepted argument is handed on as it came.

use vstd::prelude::*;
use vstd::string::*;

verus! {

/// The lowercase form of a string, as the standard library computes it.
pub uninterp spec fn lowercase(s: Seq<char>) -> Seq<char>;

/// `str::to_lowercase` returns the lowercase form of the whole string as a new
/// `String`. It follows the Unicode case mapping, which may change the number
/// of characters and depends on nothing but the string, so the result is only
/// given its name here.
pub assume_specification[ str::to_lowercase ](s: &str) -> (lower: String)
    ensures
        lower@ == lowercase(s@),
;

/// The short extension of a markdown file.
pub open spec fn md_suffix() -> Seq<char> {
    seq!['.', 'm', 'd']
}

/// The long extension of a markdown file.
pub open spec fn markdown_suffix() -> Seq<char> {
    seq!['.', 'm', 'a', 'r', 'k', 'd', 'o', 'w', 'n']
}

/// Whether a name that is already in lowercase ends in one of the two
/// markdown extensions.
pub open spec fn ends_in_markdown_suffix(lower: Seq<char>) -> bool {
    md_suffix().is_suffix_of(lower) || markdown_suffix().is_suffix_of(lower)
}

/// Whether a launch argument names a markdown file: its lowercase form ends
/// in `.md` or `.markdown`.
pub open spec fn is_markdown_name(arg: Seq<char>) -> bool {
    ends_in_markdown_suffix(lowercase(arg))
}

/// The arguments of `args` that name markdown files, in the order of `args`.
pub open spec fn markdown_names(args: Seq<Seq<char>>) -> Seq<Seq<char>> {
    args.filter(|arg: Seq<char>| is_markdown_name(arg))
}

/// The places in `args` of the arguments that name markdown files, in
/// rising order.
pub open spec fn markdown_places(args: Seq<Seq<char>>) -> Seq<int>
    decreases args.len(),
{
    if args.len() == 0 {
        Seq::empty()
    } else if is_markdown_name(args.last()) {
        markdown_places(args.drop_last()).push(args.len() - 1)
    } else {
        markdown_places(args.drop_last())
    }
}

/// The filter keeps exactly the arguments that name markdown files, and
/// keeps them in the order they had: the entries of its result are the
/// arguments at strictly rising places of `args`, each of them names a
/// markdown file, and the place of every argument that does is among them.
pub proof fn lemma_filter_selects_in_order(args: Seq<Seq<char>>)
    ensures
        markdown_places(args).len() == markdown_names(args).len(),
        forall|k: int|
            0 <= k < markdown_places(args).len() ==> {
                &&& 0 <= #[trigger] markdown_places(args)[k] < args.len()
                &&& markdown_names(args)[k] == args[markdown_places(args)[k]]
                &&& is_markdown_name(markdown_names(args)[k])
            },
        forall|j: int, k: int|
            0 <= j < k < markdown_places(args).len() ==> markdown_places(args)[j]
                < markdown_places(args)[k],
        forall|i: int|
            0 <= i < args.len() && is_markdown_name(args[i]) ==> markdown_places(args).contains(i),
    decreases args.len(),
{
    reveal(Seq::filter);
    let accepts = |arg: Seq<char>| is_markdown_name(arg);
    if args.len() > 0 {
        let front = args.drop_last();
        let places = markdown_places(args);
        let front_places = markdown_places(front);
        lemma_filter_selects_in_order(front);
        assert(markdown_names(args) == if accepts(args.last()) {
            front.filter(accepts).push(args.last())
        } else {
            front.filter(accepts)
        });
        assert forall|k: int| 0 <= k < places.len() implies {
            &&& 0 <= #[trigger] places[k] < args.len()
            &&& markdown_names(args)[k] == args[places[k]]
            &&& is_markdown_name(markdown_names(args)[k])
        } by {
            if k < front_places.len() {
                assert(places[k] == front_places[k]);
                assert(front[front_places[k]] == args[front_places[k]]);
            }
        }
        assert forall|j: int, k: int| 0 <= j < k < places.len() implies places[j]
            < places[k] by {
            assert(0 <= front_places[j] < front.len());
            if k < front_places.len() {
                assert(0 <= front_places[k] < front.len());
            }
        }
        assert forall|i: int| 0 <= i < args.len() && is_markdown_name(args[i]) implies places.contains(
            i,
        ) by {
            if i < front.len() {
                assert(front[i] == args[i]);
                assert(front_places.contains(i));
                let k = choose|k: int| 0 <= k < front_places.len() && front_places[k] == i;
                assert(places[k] == i);
            } else {
                assert(places[places.len() - 1] == i);
            }
        }
    }
}

/// Whether `s` ends with `suffix`, character by character.
fn ends_with(s: &str, suffix: &str) -> (found: bool)
    ensures
        found == suffix@.is_suffix_of(s@),
{
    let len: usize = s.unicode_len();
    let suffix_len: usize = suffix.unicode_len();
    if suffix_len > len {
        return false;
    }
    let tail = s.substring_char(len - suffix_len, len);
    let mut k: usize = 0;
    while k < suffix_len
        invariant
            k <= suffix_len,
            suffix_len == suffix@.len(),
            suffix_len <= len == s@.len(),
            tail@ == s@.subrange(len - suffix_len, len as int),
            forall|j: int| 0 <= j < k ==> tail@[j] == suffix@[j],
        decreases suffix_len - k,
    {
        if tail.get_char(k) != suffix.get_char(k) {
            return false;
        }
        k = k + 1;
    }
    assert(tail@ =~= suffix@);
    true
}

/// Tells whether a name in lowercase ends in `.md` or `.markdown`.
pub fn has_markdown_suffix(lower: &str) -> (found: bool)
    ensures
        found == ends_in_markdown_suffix(lower@),
{
    proof {
        reveal_strlit(".md");
        reveal_strlit(".markdown");
        assert(".md"@ =~= md_suffix());
        assert(".markdown"@ =~= markdown_suffix());
    }
    ends_with(lower, ".md") || ends_with(lower, ".markdown")
}

/// Tells whether a launch argument names a markdown file. Only the extension
/// is compared, and without regard to case; the argument itself is not
/// changed and the file need not exist.
pub fn is_markdown_path(arg: &str) -> (accepted: bool)
    ensures
        accepted == is_markdown_name(arg@),
{
    let lower = arg.to_lowercase();
    has_markdown_suffix(lower.as_str())
}

/// Selects the files to open from the launch arguments (the program's own
/// name not among them): the arguments that name markdown files, each as it
/// was given and in the order given.
pub fn filter_markdown_args(args: &Vec<String>) -> (files: Vec<String>)
    ensures
        files.deep_view() == markdown_names(args.deep_view()),
{
    let ghost accepts = |arg: Seq<char>| is_markdown_name(arg);
    let mut files: Vec<String> = Vec::new();
    let mut i: usize = 0;
    assert(args.deep_view().take(0) =~= Seq::<Seq<char>>::empty());
    assert(files.deep_view() =~= Seq::<Seq<char>>::empty());
    while i < args.len()
        invariant
            i <= args.len(),
            accepts == |arg: Seq<char>| is_markdown_name(arg),
            files.deep_view() == args.deep_view().take(i as int).filter(accepts),
        decreases args.len() - i,
    {
        let ghost before = files.deep_view();
        let arg = &args[i];
        let accepted = is_markdown_path(arg.as_str());
        if accepted {
            files.push(arg.clone());
        }
        proof {
            let seen = args.deep_view().take(i as int);
            assert(args.deep_view().take(i + 1) =~= seen.push(arg@));
            seen.lemma_filter_push(arg@, accepts);
            if accepted {
                assert(files.deep_view() =~= before.push(arg@));
            } else {
                assert(files.deep_view() =~= before);
            }
        }
        i = i + 1;
    }
    assert(args.deep_view().take(i as int) =~= args.deep_view());
    files
}

} // verus!
