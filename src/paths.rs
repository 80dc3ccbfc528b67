use vstd::prelude::*;

use crate::alias::ALIAS_FILE_NAME;
use crate::text::{concat, str_equal, strip_suffix};
use vstd::string::StrSliceExecFns;

verus! {

/// `base` with `name` appended as a further path component.
pub uninterp spec fn joined(base: Seq<char>, name: Seq<char>) -> Seq<char>;

/// The extension of a path's final component, if it has one.
pub uninterp spec fn extension_of(path: Seq<char>) -> Option<Seq<char>>;

/// The path with the extension of its final component replaced by `ext`.
pub uninterp spec fn with_extension_of(path: Seq<char>, ext: Seq<char>) -> Seq<char>;

/// The final component of a path, if it has one.
pub uninterp spec fn file_name_of(path: Seq<char>) -> Option<Seq<char>>;

/// The path with its final component replaced by `name`.
pub uninterp spec fn with_file_name_of(path: Seq<char>, name: Seq<char>) -> Seq<char>;

/// Relies on std::path::Path::join: appends a component to a path.
#[verifier::external_body]
fn path_join(base: &str, name: &str) -> (r: String)
    ensures
        r@ == joined(base@, name@),
{
    std::path::Path::new(base).join(name).to_string_lossy().into_owned()
}

/// Relies on std::path::Path::extension: the extension of the final component, which
/// holds no separator.
#[verifier::external_body]
fn path_extension(path: &str) -> (r: Option<String>)
    ensures
        match r {
            Some(e) => extension_of(path@) == Some(e@) && !e@.contains('/'),
            None => extension_of(path@).is_none(),
        },
{
    std::path::Path::new(path).extension().map(|e| e.to_string_lossy().into_owned())
}

/// Relies on std::path::Path::with_extension: replaces the final component's extension;
/// an extension holding a separator is left out, as std may panic on it.
#[verifier::external_body]
fn path_with_extension(path: &str, ext: &str) -> (r: String)
    requires
        !ext@.contains('/'),
    ensures
        r@ == with_extension_of(path@, ext@),
{
    std::path::Path::new(path).with_extension(ext).to_string_lossy().into_owned()
}

/// Relies on std::path::Path::file_name: the final component, unless it is `..`.
#[verifier::external_body]
fn path_file_name(path: &str) -> (r: Option<String>)
    ensures
        match r {
            Some(n) => file_name_of(path@) == Some(n@),
            None => file_name_of(path@).is_none(),
        },
{
    std::path::Path::new(path).file_name().map(|n| n.to_string_lossy().into_owned())
}

/// Relies on std::path::Path::with_file_name: replaces the final component.
#[verifier::external_body]
fn path_with_file_name(path: &str, name: &str) -> (r: String)
    ensures
        r@ == with_file_name_of(path@, name@),
{
    std::path::Path::new(path).with_file_name(name).to_string_lossy().into_owned()
}

/// Relies on dirs::home_dir: the user's home directory, as the environment gives it.
#[verifier::external_body]
fn home_dir() -> (r: Option<String>) {
    dirs::home_dir().map(|h| h.to_string_lossy().into_owned())
}

/// Whether `s` begins with `prefix`.
fn starts_with(s: &str, prefix: &str) -> (r: bool)
    ensures
        r == (prefix@.len() <= s@.len() && s@.subrange(0, prefix@.len() as int) == prefix@),
{
    let n = prefix.unicode_len();
    if n > s.unicode_len() {
        return false;
    }
    let mut i: usize = 0;
    while i < n
        invariant
            n == prefix@.len(),
            n <= s@.len(),
            i <= n,
            forall|j: int| 0 <= j < i ==> s@[j] == prefix@[j],
        decreases n - i,
    {
        if s.get_char(i) != prefix.get_char(i) {
            assert(s@.subrange(0, n as int)[i as int] != prefix@[i as int]);
            return false;
        }
        i = i + 1;
    }
    assert(s@.subrange(0, n as int) =~= prefix@);
    true
}

/// `s` without any leading `c`.
pub open spec fn drop_leading(s: Seq<char>, c: char) -> Seq<char>
    decreases s.len(),
{
    if s.len() > 0 && s[0] == c {
        drop_leading(s.drop_first(), c)
    } else {
        s
    }
}

proof fn lemma_drop_leading(s: Seq<char>, c: char, i: int)
    requires
        0 <= i <= s.len(),
        forall|j: int| 0 <= j < i ==> s[j] == c,
    ensures
        drop_leading(s, c) == drop_leading(s.subrange(i, s.len() as int), c),
    decreases i,
{
    if i == 0 {
        assert(s.subrange(0, s.len() as int) =~= s);
    } else {
        lemma_drop_leading(s.drop_first(), c, i - 1);
        assert(s.drop_first().subrange(i - 1, s.drop_first().len() as int) =~= s.subrange(
            i,
            s.len() as int,
        ));
    }
}

/// `s` without any leading `c`.
fn trim_leading(s: &str, c: char) -> (r: String)
    ensures
        r@ == drop_leading(s@, c),
{
    let n = s.unicode_len();
    let mut i: usize = 0;
    while i < n && s.get_char(i) == c
        invariant
            n == s@.len(),
            i <= n,
            forall|j: int| 0 <= j < i ==> s@[j] == c,
        decreases n - i,
    {
        i = i + 1;
    }
    proof {
        lemma_drop_leading(s@, c, i as int);
        let rest = s@.subrange(i as int, n as int);
        if rest.len() > 0 {
            assert(rest[0] == s@[i as int]);
        }
    }
    s.substring_char(i, n).to_owned()
}

/// The path of the alias file in a library root.
pub fn alias_path_for_root(root: &str) -> (r: String)
    ensures
        r@ == joined(root@, ALIAS_FILE_NAME@),
{
    path_join(root, ALIAS_FILE_NAME)
}

/// The characters of an optional string.
pub open spec fn opt_view(o: Option<String>) -> Option<Seq<char>> {
    match o {
        Some(s) => Some(s@),
        None => None,
    }
}

/// The path with a leading `~` replaced by `home`, when it is `~` or starts with `~/`
/// and a home directory is known.
pub open spec fn tilde_expanded(path: Seq<char>, home: Option<Seq<char>>) -> Seq<char> {
    if (path == seq!['~'] || (path.len() >= 2 && path[0] == '~' && path[1] == '/')) && home is Some {
        joined(home->Some_0, drop_leading(drop_leading(path, '~'), '/'))
    } else {
        path
    }
}

/// Replaces a leading `~` by the home directory `home`.
pub fn expand_tilde_with(path: &str, home: Option<String>) -> (r: String)
    ensures
        r@ == tilde_expanded(
            path@,
            opt_view(home),
        ),
{
    proof {
        reveal_strlit("~");
        assert("~"@ =~= seq!['~']);
        reveal_strlit("~/");
        assert("~/"@ =~= seq!['~', '/']);
    }
    let tilde = str_equal(path, "~");
    let tilde_slash = starts_with(path, "~/");
    proof {
        if tilde_slash {
            assert(path@.subrange(0, 2)[0] == path@[0]);
            assert(path@.subrange(0, 2)[1] == path@[1]);
        }
        if path@.len() >= 2 && path@[0] == '~' && path@[1] == '/' {
            assert(path@.subrange(0, 2) =~= seq!['~', '/']);
        }
    }
    if tilde || tilde_slash {
        match home {
            Some(h) => {
                let suffix = trim_leading(path, '~');
                let rest = trim_leading(suffix.as_str(), '/');
                return path_join(h.as_str(), rest.as_str());
            },
            None => {},
        }
    }
    path.to_owned()
}

/// Replaces a leading `~` by the user's home directory, where one is known.
pub fn expand_tilde(path: &str) -> (r: String)
    ensures
        !(path@ == seq!['~'] || (path@.len() >= 2 && path@[0] == '~' && path@[1] == '/'))
            ==> r@ == path@,
{
    expand_tilde_with(path, home_dir())
}

/// The metadata file that sits beside an image: its extension gets `.json` appended.
pub open spec fn metadata_path(path: Seq<char>) -> Seq<char> {
    match extension_of(path) {
        Some(e) => if e.len() > 0 {
            with_extension_of(path, e + seq!['.', 'j', 's', 'o', 'n'])
        } else {
            with_extension_of(path, seq!['j', 's', 'o', 'n'])
        },
        None => with_extension_of(path, seq!['j', 's', 'o', 'n']),
    }
}

pub fn metadata_path_for_image(image_path: &str) -> (r: String)
    ensures
        r@ == metadata_path(image_path@),
{
    proof {
        reveal_strlit(".json");
        assert(".json"@ =~= seq!['.', 'j', 's', 'o', 'n']);
        reveal_strlit("json");
        assert("json"@ =~= seq!['j', 's', 'o', 'n']);
    }
    match path_extension(image_path) {
        Some(ext) => {
            if ext.as_str().unicode_len() > 0 {
                let with_json = concat(ext.as_str(), ".json");
                proof {
                    assert forall|k: int| 0 <= k < with_json@.len() implies with_json@[k] != '/' by {
                        if k < ext@.len() {
                            assert(with_json@[k] == ext@[k]);
                            assert(ext@.contains(ext@[k]));
                        }
                    }
                }
                path_with_extension(image_path, with_json.as_str())
            } else {
                path_with_extension(image_path, "json")
            }
        },
        None => path_with_extension(image_path, "json"),
    }
}

/// The edits file that sits beside an image: its file name with `.booru.json` appended.
pub open spec fn booru_path(path: Seq<char>) -> Seq<char> {
    let name = match file_name_of(path) {
        Some(n) => n,
        None => seq!['i', 'm', 'a', 'g', 'e'],
    };
    with_file_name_of(path, name + seq!['.', 'b', 'o', 'o', 'r', 'u', '.', 'j', 's', 'o', 'n'])
}

pub fn booru_path_for_image(image_path: &str) -> (r: String)
    ensures
        r@ == booru_path(image_path@),
{
    proof {
        reveal_strlit("image");
        assert("image"@ =~= seq!['i', 'm', 'a', 'g', 'e']);
        reveal_strlit(".booru.json");
        assert(".booru.json"@ =~= seq!['.', 'b', 'o', 'o', 'r', 'u', '.', 'j', 's', 'o', 'n']);
    }
    let name = match path_file_name(image_path) {
        Some(n) => n,
        None => "image".to_owned(),
    };
    let new_name = concat(name.as_str(), ".booru.json");
    path_with_file_name(image_path, new_name.as_str())
}

/// The image a path names: a metadata or edits file name loses its `.booru.json`
/// or `.json` suffix.
pub open spec fn image_path_of(path: Seq<char>) -> Seq<char> {
    let booru = seq!['.', 'b', 'o', 'o', 'r', 'u', '.', 'j', 's', 'o', 'n'];
    let json = seq!['.', 'j', 's', 'o', 'n'];
    match file_name_of(path) {
        Some(n) => if n.len() >= booru.len() && n.subrange(n.len() - booru.len(), n.len() as int)
            == booru {
            with_file_name_of(path, n.subrange(0, n.len() - booru.len()))
        } else if n.len() >= json.len() && n.subrange(n.len() - json.len(), n.len() as int)
            == json {
            with_file_name_of(path, n.subrange(0, n.len() - json.len()))
        } else {
            path
        },
        None => path,
    }
}

/// `path` with a leading `~` expanded, naming the image when it names the image's
/// metadata or edits file.
pub fn normalize_image_path(path: &str) -> (r: String)
    ensures
        exists|expanded: Seq<char>|
            #[trigger] image_path_of(expanded) == r@ && (!(path@ == seq!['~'] || (path@.len() >= 2
                && path@[0] == '~' && path@[1] == '/')) ==> expanded == path@),
{
    proof {
        reveal_strlit(".booru.json");
        assert(".booru.json"@ =~= seq!['.', 'b', 'o', 'o', 'r', 'u', '.', 'j', 's', 'o', 'n']);
        reveal_strlit(".json");
        assert(".json"@ =~= seq!['.', 'j', 's', 'o', 'n']);
    }
    let expanded = expand_tilde(path);
    let r = match path_file_name(expanded.as_str()) {
        Some(name) => match strip_suffix(name.as_str(), ".booru.json") {
            Some(stripped) => {
                proof {
                    assert(stripped@ =~= name@.subrange(0, name@.len() - 11));
                    assert(name@.subrange(name@.len() - 11, name@.len() as int) =~= seq!['.', 'b', 'o', 'o', 'r', 'u', '.', 'j', 's', 'o', 'n']);
                }
                path_with_file_name(expanded.as_str(), stripped.as_str())
            },
            None => match strip_suffix(name.as_str(), ".json") {
                Some(stripped) => {
                    proof {
                        assert(stripped@ =~= name@.subrange(0, name@.len() - 5));
                        assert(name@.subrange(name@.len() - 5, name@.len() as int) =~= seq!['.', 'j', 's', 'o', 'n']);
                    }
                    path_with_file_name(expanded.as_str(), stripped.as_str())
                },
                None => expanded.clone(),
            },
        },
        None => expanded.clone(),
    };
    assert(image_path_of(expanded@) == r@);
    r
}

/// Where the library looks for images.
#[derive(Clone, Debug)]
pub struct BooruConfig {
    pub roots: Vec<String>,
}

/// The default library root under a home directory.
pub open spec fn default_root_under(home: Option<Seq<char>>) -> Seq<char> {
    match home {
        Some(h) => joined(
            joined(h, seq!['P', 'i', 'c', 't', 'u', 'r', 'e', 's']),
            seq!['g', 'a', 'l', 'l', 'e', 'r', 'y', '-', 'd', 'l'],
        ),
        None => seq!['.', '/', 'g', 'a', 'l', 'l', 'e', 'r', 'y', '-', 'd', 'l'],
    }
}

/// The default library root under `home`.
pub fn default_root_with(home: Option<String>) -> (r: String)
    ensures
        r@ == default_root_under(
            opt_view(home),
        ),
{
    proof {
        reveal_strlit("Pictures");
        assert("Pictures"@ =~= seq!['P', 'i', 'c', 't', 'u', 'r', 'e', 's']);
        reveal_strlit("gallery-dl");
        assert("gallery-dl"@ =~= seq!['g', 'a', 'l', 'l', 'e', 'r', 'y', '-', 'd', 'l']);
        reveal_strlit("./gallery-dl");
        assert("./gallery-dl"@ =~= seq!['.', '/', 'g', 'a', 'l', 'l', 'e', 'r', 'y', '-', 'd', 'l']);
    }
    match home {
        Some(h) => {
            let pictures = path_join(h.as_str(), "Pictures");
            path_join(pictures.as_str(), "gallery-dl")
        },
        None => "./gallery-dl".to_owned(),
    }
}

pub fn default_root() -> (r: String)
    ensures
        exists|home: Option<Seq<char>>| r@ == #[trigger] default_root_under(home),
{
    let home = home_dir();
    let ghost h = opt_view(home);
    let r = default_root_with(home);
    assert(r@ == default_root_under(h));
    r
}

impl BooruConfig {
    /// A configuration with the default root alone.
    pub fn default() -> (r: BooruConfig)
        ensures
            r.roots.len() == 1,
            exists|home: Option<Seq<char>>| r.roots@[0]@ == #[trigger] default_root_under(home),
    {
        let root = default_root();
        let mut roots: Vec<String> = Vec::new();
        roots.push(root);
        BooruConfig { roots }
    }

    /// A configuration with the given roots, each with a leading `~` expanded.
    pub fn with_roots(roots: Vec<String>) -> (r: BooruConfig)
        ensures
            r.roots.len() == roots.len(),
            forall|k: int|
                0 <= k < roots.len() && !(roots@[k]@ == seq!['~'] || (roots@[k]@.len() >= 2
                    && roots@[k]@[0] == '~' && roots@[k]@[1] == '/')) ==> (#[trigger] r.roots@[k])@
                    == roots@[k]@,
    {
        let mut out: Vec<String> = Vec::new();
        let mut i: usize = 0;
        while i < roots.len()
            invariant
                i <= roots.len(),
                out.len() == i,
                forall|k: int|
                    0 <= k < i && !(roots@[k]@ == seq!['~'] || (roots@[k]@.len() >= 2
                        && roots@[k]@[0] == '~' && roots@[k]@[1] == '/')) ==> (#[trigger] out@[k])@
                        == roots@[k]@,
            decreases roots.len() - i,
        {
            out.push(expand_tilde(roots[i].as_str()));
            i = i + 1;
        }
        BooruConfig { roots: out }
    }
}

} // verus!
