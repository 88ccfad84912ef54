//! The fonts of the table: which files are fonts, and where they are.

use crate::config;
use crate::config::join_path;
use crate::filter;
use crate::lang::ascii_lowercase;
use crate::order;
use crate::order::comes_before;
use crate::split;
use crate::text::{chars_of, same_text, string_of};
use vstd::multiset::Multiset;
use vstd::prelude::*;
use vstd::seq_lib::*;
use vstd::slice::slice_subrange;

verus! {

/// Position of the last dot of a text, or -1 if it has none.
pub open spec fn last_dot(s: Seq<char>) -> int
    decreases s.len(),
{
    if s.len() == 0 {
        -1
    } else if s.last() == '.' {
        s.len() - 1
    } else {
        last_dot(s.drop_last())
    }
}

/// A file name has an extension: it has a dot that is not its first character, and
/// is not `..`.
pub open spec fn has_extension(name: Seq<char>) -> bool {
    last_dot(name) > 0 && name != ".."@
}

/// A file name without its extension.
pub open spec fn stem(name: Seq<char>) -> Seq<char> {
    if has_extension(name) {
        name.take(last_dot(name))
    } else {
        name
    }
}

/// A file name is that of a font: by its extension, in upper or lower case.
pub open spec fn is_font(name: Seq<char>) -> bool {
    has_extension(name) && {
        let ext = filter::ascii_lowered(name.skip(last_dot(name) + 1));
        ext == "ttf"@ || ext == "otf"@ || ext == "ttc"@ || ext == "otc"@
    }
}

/// The names that are those of fonts.
pub open spec fn font_names(names: Seq<Seq<char>>) -> Seq<Seq<char>>
    decreases names.len(),
{
    if names.len() == 0 {
        seq![]
    } else {
        let before = font_names(names.drop_last());
        if is_font(names.last()) {
            before.push(names.last())
        } else {
            before
        }
    }
}

/// No text comes before one that stands before it.
pub open spec fn in_order(v: Seq<Seq<char>>) -> bool {
    forall|i: int, j: int| 0 <= i < j < v.len() ==> !order::text_before(v[j], v[i])
}

/// A font: the name that it is chosen by, and its file name.
#[derive(Debug)]
pub struct FontFile {
    pub stem: String,
    pub name: String,
}

/// The file names of fonts.
pub open spec fn file_names(v: Seq<FontFile>) -> Seq<Seq<char>> {
    v.map_values(|f: FontFile| f.name@)
}

/// Position of the last dot, if there is one.
fn find_last_dot(s: &[char]) -> (r: Option<usize>)
    ensures
        match r {
            Some(k) => k == last_dot(s@) && k < s@.len(),
            None => last_dot(s@) < 0,
        },
{
    let mut n: usize = s.len();
    assert(s@.take(n as int) == s@);
    while n > 0
        invariant
            n <= s@.len(),
            last_dot(s@.take(n as int)) == last_dot(s@),
        decreases n,
    {
        assert(s@.take(n as int).last() == s@[n - 1]);
        if s[n - 1] == '.' {
            return Some(n - 1);
        }
        assert(s@.take(n as int).drop_last() == s@.take(n - 1));
        n = n - 1;
    }
    None
}

/// Whether a file name is that of a font.
pub fn is_font_file(name: &str) -> (r: bool)
    ensures
        r == is_font(name@),
{
    if same_text(name, "..") {
        return false;
    }
    let chars = chars_of(name);
    match find_last_dot(chars.as_slice()) {
        Some(k) => {
            if k == 0 {
                return false;
            }
            let total: usize = chars.len();
            let ext = slice_subrange(chars.as_slice(), k + 1, total);
            assert(ext@ == chars@.skip(k + 1));
            let lowered = string_of(ascii_lowercase(ext).as_slice());
            same_text(lowered.as_str(), "ttf") || same_text(lowered.as_str(), "otf") || same_text(
                lowered.as_str(),
                "ttc",
            ) || same_text(lowered.as_str(), "otc")
        },
        None => false,
    }
}

/// A file name without its extension.
pub fn file_stem(name: &str) -> (r: String)
    ensures
        r@ == stem(name@),
{
    let chars = chars_of(name);
    if same_text(name, "..") {
        return string_of(chars.as_slice());
    }
    match find_last_dot(chars.as_slice()) {
        Some(k) => if k == 0 {
            string_of(chars.as_slice())
        } else {
            let front = slice_subrange(chars.as_slice(), 0, k);
            assert(front@ == chars@.take(k as int));
            string_of(front)
        },
        None => string_of(chars.as_slice()),
    }
}

/// Puts a font where it belongs in an ordered list.
fn insert_font(v: &mut Vec<FontFile>, font: FontFile)
    requires
        in_order(file_names(old(v)@)),
        font.stem@ == stem(font.name@),
        forall|i: int|
            0 <= i < old(v)@.len() ==> (#[trigger] old(v)@[i]).stem@ == stem(old(v)@[i].name@),
    ensures
        in_order(file_names(final(v)@)),
        file_names(final(v)@).to_multiset() == file_names(old(v)@).to_multiset().insert(
            font.name@,
        ),
        forall|i: int|
            0 <= i < final(v)@.len() ==> (#[trigger] final(v)@[i]).stem@ == stem(
                final(v)@[i].name@,
            ),
{
    let name = chars_of(font.name.as_str());
    let ghost before = file_names(v@);
    let mut at: usize = v.len();
    while at > 0 && comes_before(name.as_slice(), chars_of(v[at - 1].name.as_str()).as_slice())
        invariant
            at <= v@.len(),
            v@ == old(v)@,
            before == file_names(v@),
            name@ == font.name@,
            forall|i: int| at <= i < before.len() ==> order::text_before(name@, #[trigger] before[i]),
        decreases at,
    {
        assert(before[at - 1] == v@[at - 1].name@);
        at = at - 1;
    }
    proof {
        if at > 0 {
            assert(before[at - 1] == v@[at - 1].name@);
        }
        let x = font.name@;
        let after = before.insert(at as int, x);
        assert(after.remove(at as int) == before);
        after.to_multiset_ensures();
        assert(after[at as int] == x);
        assert(after.contains(x));
        assert(after.to_multiset() =~= before.to_multiset().insert(x));
        assert forall|i: int, j: int| 0 <= i < j < after.len() implies !order::text_before(
            after[j],
            after[i],
        ) by {
            if i < at && j > at {
                assert(after[i] == before[i] && after[j] == before[j - 1]);
            } else if j < at {
                assert(after[i] == before[i] && after[j] == before[j]);
            } else if i > at {
                assert(after[i] == before[i - 1] && after[j] == before[j - 1]);
            } else if i == at {
                assert(order::text_before(x, before[j - 1]));
                order::text_order_total(x, before[j - 1]);
            } else {
                assert(after[i] == before[i]);
                assert(!order::text_before(x, before[at - 1]));
                if order::text_before(x, before[i]) {
                    if i < at - 1 {
                        assert(!order::text_before(before[at - 1], before[i]));
                        order::text_order_total(before[at - 1], before[i]);
                        if before[at - 1] != before[i] {
                            order::text_order_transitive(x, before[i], before[at - 1]);
                        }
                    }
                }
            }
        }
    }
    v.insert(at, font);
    assert(file_names(v@) =~= before.insert(at as int, font.name@));
    assert forall|i: int| 0 <= i < v@.len() implies (#[trigger] v@[i]).stem@ == stem(
        v@[i].name@,
    ) by {
        if i < at {
            assert(v@[i] == old(v)@[i]);
        } else if i > at {
            assert(v@[i] == old(v)@[i - 1]);
        }
    }
}

/// The fonts among the files of a directory, in the order of their names.
pub fn list_user_font_stems(names: &Vec<String>) -> (r: Vec<FontFile>)
    ensures
        in_order(file_names(r@)),
        file_names(r@).to_multiset() == font_names(split::texts(names@)).to_multiset(),
        forall|i: int| 0 <= i < r@.len() ==> (#[trigger] r@[i]).stem@ == stem(r@[i].name@),
{
    let mut out: Vec<FontFile> = Vec::new();
    let ghost all = split::texts(names@);
    let n: usize = names.len();
    assert(file_names(out@) =~= Seq::<Seq<char>>::empty());
    assert(font_names(all.take(0)) =~= Seq::<Seq<char>>::empty());
    for i in 0..n
        invariant
            n == names@.len(),
            all == split::texts(names@),
            in_order(file_names(out@)),
            file_names(out@).to_multiset() == font_names(all.take(i as int)).to_multiset(),
            forall|k: int| 0 <= k < out@.len() ==> (#[trigger] out@[k]).stem@ == stem(
                out@[k].name@,
            ),
    {
        proof {
            assert(all[i as int] == names@[i as int]@);
            assert(all.take(i + 1).drop_last() == all.take(i as int));
            font_names(all.take(i as int)).to_multiset_ensures();
        }
        if is_font_file(names[i].as_str()) {
            let stem = file_stem(names[i].as_str());
            insert_font(&mut out, FontFile { stem, name: names[i].clone() });
        }
    }
    assert(all.take(n as int) == all);
    out
}

/// The first font that is chosen by a name: its position in the list, and the path
/// of its file in the directory of fonts, if there is one.
pub fn find_font_file(dir: Option<&str>, fonts: &Vec<FontFile>, stem: &str) -> (r: Option<
    (usize, String),
>)
    ensures
        match r {
            Some((at, path)) => {
                &&& dir is Some
                &&& at < fonts@.len()
                &&& fonts@[at as int].stem@ == stem@
                &&& forall|i: int| 0 <= i < at ==> (#[trigger] fonts@[i]).stem@ != stem@
                &&& config::leads_on(fonts@[at as int].name@) && !config::is_verbatim(dir->0@)
                    ==> config::is_joined(path@, dir->0@, fonts@[at as int].name@)
            },
            None => dir is None || forall|i: int|
                0 <= i < fonts@.len() ==> (#[trigger] fonts@[i]).stem@ != stem@,
        },
{
    let base = match dir {
        Some(base) => base,
        None => {
            return None;
        },
    };
    let n: usize = fonts.len();
    for i in 0..n
        invariant
            n == fonts@.len(),
            dir == Some(base),
            forall|k: int| 0 <= k < i ==> (#[trigger] fonts@[k]).stem@ != stem@,
    {
        if same_text(fonts[i].stem.as_str(), stem) {
            return Some((i, join_path(base, fonts[i].name.as_str())));
        }
    }
    None
}

/// The kind of operating system.
#[derive(Debug, Clone, Copy, PartialEq, Eq, Structural)]
pub enum Platform {
    Windows,
    MacOs,
    Other,
}

/// A font file of the system and the face in it.
#[verifier::ext_equal]
pub struct CandidateView {
    pub path: Seq<char>,
    pub index: u32,
}

/// A font file of the system and the face in it.
#[derive(Debug, Clone, Copy)]
pub struct FontCandidate {
    pub path: &'static str,
    pub index: u32,
}

impl View for FontCandidate {
    type V = CandidateView;

    open spec fn view(&self) -> CandidateView {
        CandidateView { path: self.path@, index: self.index }
    }
}

/// The paths of the fonts of a system that have the characters of Chinese, Japanese
/// and Korean, in the order in which they are tried.
pub open spec fn cjk_paths(platform: Platform) -> Seq<Seq<char>> {
    match platform {
        Platform::Windows => seq![
            "C:\\Windows\\Fonts\\msyh.ttc"@,
            "C:\\Windows\\Fonts\\msyh.ttf"@,
            "C:\\Windows\\Fonts\\simhei.ttf"@,
            "C:\\Windows\\Fonts\\simsun.ttc"@,
            "C:\\Windows\\Fonts\\msjh.ttc"@,
            "C:\\Windows\\Fonts\\meiryo.ttc"@,
            "C:\\Windows\\Fonts\\malgun.ttf"@,
        ],
        Platform::MacOs => seq![
            "/System/Library/Fonts/PingFang.ttc"@,
            "/System/Library/Fonts/STHeiti Light.ttc"@,
            "/System/Library/Fonts/Hiragino Sans GB.ttc"@,
            "/Library/Fonts/Arial Unicode.ttf"@,
        ],
        Platform::Other => seq![
            "/usr/share/fonts/opentype/noto/NotoSansCJK-Regular.ttc"@,
            "/usr/share/fonts/noto-cjk/NotoSansCJK-Regular.ttc"@,
            "/usr/share/fonts/google-noto-cjk/NotoSansCJK-Regular.ttc"@,
            "/usr/share/fonts/truetype/wqy/wqy-microhei.ttc"@,
            "/usr/share/fonts/wenquanyi/wqy-microhei/wqy-microhei.ttc"@,
        ],
    }
}

/// The fonts of a system that have the characters of Chinese, Japanese and Korean,
/// in the order in which they are tried. The first face of each is used.
pub fn system_cjk_candidates(platform: Platform) -> (r: Vec<FontCandidate>)
    ensures
        r@.map_values(|c: FontCandidate| c@) == cjk_paths(platform).map_values(
            |path: Seq<char>| CandidateView { path, index: 0 },
        ),
{
    let mut out: Vec<FontCandidate> = Vec::new();
    match platform {
        Platform::Windows => {
            out.push(FontCandidate { path: "C:\\Windows\\Fonts\\msyh.ttc", index: 0 });
            out.push(FontCandidate { path: "C:\\Windows\\Fonts\\msyh.ttf", index: 0 });
            out.push(FontCandidate { path: "C:\\Windows\\Fonts\\simhei.ttf", index: 0 });
            out.push(FontCandidate { path: "C:\\Windows\\Fonts\\simsun.ttc", index: 0 });
            out.push(FontCandidate { path: "C:\\Windows\\Fonts\\msjh.ttc", index: 0 });
            out.push(FontCandidate { path: "C:\\Windows\\Fonts\\meiryo.ttc", index: 0 });
            out.push(FontCandidate { path: "C:\\Windows\\Fonts\\malgun.ttf", index: 0 });
        },
        Platform::MacOs => {
            out.push(FontCandidate { path: "/System/Library/Fonts/PingFang.ttc", index: 0 });
            out.push(FontCandidate { path: "/System/Library/Fonts/STHeiti Light.ttc", index: 0 });
            out.push(
                FontCandidate { path: "/System/Library/Fonts/Hiragino Sans GB.ttc", index: 0 },
            );
            out.push(FontCandidate { path: "/Library/Fonts/Arial Unicode.ttf", index: 0 });
        },
        Platform::Other => {
            out.push(
                FontCandidate {
                    path: "/usr/share/fonts/opentype/noto/NotoSansCJK-Regular.ttc",
                    index: 0,
                },
            );
            out.push(
                FontCandidate {
                    path: "/usr/share/fonts/noto-cjk/NotoSansCJK-Regular.ttc",
                    index: 0,
                },
            );
            out.push(
                FontCandidate {
                    path: "/usr/share/fonts/google-noto-cjk/NotoSansCJK-Regular.ttc",
                    index: 0,
                },
            );
            out.push(
                FontCandidate { path: "/usr/share/fonts/truetype/wqy/wqy-microhei.ttc", index: 0 },
            );
            out.push(
                FontCandidate {
                    path: "/usr/share/fonts/wenquanyi/wqy-microhei/wqy-microhei.ttc",
                    index: 0,
                },
            );
        },
    }
    assert(out@.map_values(|c: FontCandidate| c@) =~= cjk_paths(platform).map_values(
        |path: Seq<char>| CandidateView { path, index: 0 },
    ));
    out
}

/// The extension of a file name stands behind its last dot, and what stands before that is
/// the name without it. Fonts are told by the extension.
pub proof fn extension_stands_behind_the_last_dot(base: Seq<char>, ext: Seq<char>)
    requires
        !ext.contains('.'),
    ensures
        ({
            let name = base.push('.') + ext;
            let low = filter::ascii_lowered(ext);
            &&& base.len() > 0 && name != ".."@ ==> stem(name) == base
            &&& base.len() > 0 && name != ".."@ ==> (is_font(name) <==> low == "ttf"@ || low
                == "otf"@ || low == "ttc"@ || low == "otc"@)
            &&& base.len() == 0 ==> stem(name) == name && !is_font(name)
        }),
        stem(ext) == ext,
        !is_font(ext),
        stem(".."@) == ".."@,
        !is_font(".."@),
{
    let name = base.push('.') + ext;
    lemma_last_dot(base, ext);
    lemma_no_dot(ext);
    assert(name.take(base.len() as int) =~= base);
    assert(name.skip(base.len() + 1 as int) =~= ext);
}

proof fn lemma_last_dot(base: Seq<char>, ext: Seq<char>)
    requires
        !ext.contains('.'),
    ensures
        last_dot(base.push('.') + ext) == base.len(),
    decreases ext.len(),
{
    let name = base.push('.') + ext;
    if ext.len() == 0 {
        assert(name =~= base.push('.'));
    } else {
        assert(ext.contains(ext[ext.len() - 1]));
        assert(name.last() == ext.last());
        let rest = ext.drop_last();
        if rest.contains('.') {
            let i = choose|i: int| 0 <= i < rest.len() && rest[i] == '.';
            assert(ext[i] == '.');
        }
        lemma_last_dot(base, rest);
        assert(name.drop_last() =~= base.push('.') + rest);
    }
}

proof fn lemma_no_dot(s: Seq<char>)
    requires
        !s.contains('.'),
    ensures
        last_dot(s) == -1,
    decreases s.len(),
{
    if s.len() > 0 {
        assert(s.contains(s[s.len() - 1]));
        let rest = s.drop_last();
        if rest.contains('.') {
            let i = choose|i: int| 0 <= i < rest.len() && rest[i] == '.';
            assert(s[i] == '.');
        }
        lemma_no_dot(rest);
    }
}

/// The fonts among some file names are picked out, and the others left out.
pub proof fn fonts_are_picked_out(a: Seq<Seq<char>>, b: Seq<Seq<char>>, name: Seq<char>)
    ensures
        font_names(a + b) == font_names(a) + font_names(b),
        is_font(name) ==> font_names(seq![name]) == seq![name],
        !is_font(name) ==> font_names(seq![name]).len() == 0,
    decreases b.len(),
{
    let none = Seq::<Seq<char>>::empty();
    assert(seq![name].drop_last() =~= none);
    assert(font_names(none) =~= none);
    assert(none.push(name) =~= seq![name]);
    if b.len() == 0 {
        assert(a + b =~= a);
        assert(font_names(b) =~= none);
        assert(font_names(a) + none =~= font_names(a));
    } else {
        let front = b.drop_last();
        fonts_are_picked_out(a, front, name);
        assert((a + b).drop_last() =~= a + front);
        assert((a + b).last() == b.last());
        assert(font_names(a) + font_names(front).push(b.last()) =~= (font_names(a) + font_names(
            front,
        )).push(b.last()));
    }
}

/// In an ordered list of names the first difference of two of them tells which stands
/// first.
pub proof fn names_are_in_order(
    v: Seq<Seq<char>>,
    i: int,
    j: int,
    same: Seq<char>,
    a: Seq<char>,
    b: Seq<char>,
)
    requires
        in_order(v),
        0 <= i < v.len(),
        0 <= j < v.len(),
        v[i] == same + a,
        v[j] == same + b,
        b.len() > 0,
        a.len() == 0 || a[0] < b[0],
    ensures
        i < j,
{
    order::first_difference_decides(same, a, b);
    assert(a.len() == 0 ==> same + a =~= same);
    order::text_order_total(v[i], v[j]);
    assert(order::text_before(v[i], v[j]));
}

} // verus!
