//! File names for downloaded assets.

use vstd::prelude::*;
use vstd::string::StringExecFns;

use crate::lookup::NameSet;
use crate::pattern::{find_first, first_match, group_text};
use crate::percent::{
    percent_decode, percent_decoded, percent_encode, percent_encoded, COMPONENT_MARKS,
};
use crate::text::{
    but, chars_of, decimal, find_last, is_white_space, joined, last_index, law_decimal_reads_back,
    lemma_decimal_digits, lemma_last_index_from, lemma_skip, opt_view, or_empty, part, pieces,
    push_decimal, replace, replaced, same_text, skip, split, str_view, views,
};
use crate::utils::{
    ext_from_content_type, is_forbidden, is_safe_name, media_extension, media_type,
    sanitize_file_name, sanitized,
};
use crate::web::{parse_url, url_read};

verus! {

// ── Parts of a path ────────────────────────────────────────────────

/// The last of the first `n` parts that names something: it is neither empty
/// nor a single dot.
pub open spec fn last_named(parts: Seq<Seq<char>>, n: int) -> Option<Seq<char>>
    decreases n,
{
    if n <= 0 || n > parts.len() {
        None
    } else if parts[n - 1].len() > 0 && parts[n - 1] != "."@ {
        Some(parts[n - 1])
    } else {
        last_named(parts, n - 1)
    }
}

/// The file name of a slash-separated path; none for a path that names
/// nothing or ends in `..`.
pub open spec fn file_name(path: Seq<char>) -> Option<Seq<char>> {
    let parts = pieces(path, '/');
    match last_named(parts, parts.len() as int) {
        Some(f) => if f == ".."@ {
            None
        } else {
            Some(f)
        },
        None => None,
    }
}

/// The dot that separates the extension of a file name. A dot at the start
/// does not.
pub open spec fn extension_dot(f: Seq<char>) -> Option<int> {
    match last_index(f, "."@) {
        Some(i) => if i > 0 {
            Some(i)
        } else {
            None
        },
        None => None,
    }
}

/// The extension of a path, without its dot.
pub open spec fn extension(path: Seq<char>) -> Option<Seq<char>> {
    match file_name(path) {
        Some(f) => match extension_dot(f) {
            Some(i) => Some(f.subrange(i + 1, f.len() as int)),
            None => None,
        },
        None => None,
    }
}

/// The file name of a path without its extension.
pub open spec fn file_stem(path: Seq<char>) -> Option<Seq<char>> {
    match file_name(path) {
        Some(f) => match extension_dot(f) {
            Some(i) => Some(f.subrange(0, i)),
            None => Some(f),
        },
        None => None,
    }
}

/// The file name of a slash-separated path.
pub fn file_name_of(path: &str) -> (r: Option<String>)
    ensures
        opt_view(r) == file_name(path@),
{
    let parts = split(path, '/');
    let ghost all = views(parts@);
    let mut n: usize = parts.len();
    while n > 0
        invariant
            n <= parts.len(),
            all == views(parts@),
            all == pieces(path@, '/'),
            last_named(all, all.len() as int) == last_named(all, n as int),
        decreases n,
    {
        assert(all[n - 1] == parts[n - 1]@);
        if chars_of(&parts[n - 1]).len() > 0 && !same_text(&parts[n - 1], ".") {
            if same_text(&parts[n - 1], "..") {
                return None;
            }
            return Some(parts[n - 1].clone());
        }
        n -= 1;
    }
    None
}

/// The stem and the extension of a path.
pub fn split_extension(path: &str) -> (r: (Option<String>, Option<String>))
    ensures
        opt_view(r.0) == file_stem(path@),
        opt_view(r.1) == extension(path@),
{
    match file_name_of(path) {
        Some(f) => {
            let t = chars_of(&f);
            proof {
                reveal_strlit(".");
                lemma_last_index_from(t@, "."@, t.len() - 1);
            }
            if let Some(i) = find_last(&t, ".") {
                if i > 0 {
                    return (Some(part(&t, 0, i)), Some(part(&t, i + 1, t.len())));
                }
            }
            (Some(f), None)
        },
        None => (None, None),
    }
}

// ── Unique names ───────────────────────────────────────────────────

/// The part of a file name behind its stem: the extension with its dot.
pub open spec fn dotted_extension(name: Seq<char>) -> Seq<char> {
    match extension(name) {
        Some(e) => "."@ + e,
        None => ""@,
    }
}

/// A file name with a number behind its stem.
pub open spec fn numbered(name: Seq<char>, n: nat) -> Seq<char> {
    or_empty(file_stem(name)) + "_"@ + decimal(n) + dotted_extension(name)
}

/// Whether `r` is the name that a file gets: the wanted name if it is free,
/// else the wanted name with the least number that makes it free.
pub open spec fn is_free_name(r: Seq<char>, name: Seq<char>, used: Set<Seq<char>>) -> bool {
    if !used.contains(name) {
        r == name
    } else {
        !used.contains(r) && exists|n: nat|
            n >= 1 && r == #[trigger] numbered(name, n) && (forall|k: nat|
                1 <= k < n ==> used.contains(#[trigger] numbered(name, k)))
    }
}

proof fn lemma_numbered_injective(name: Seq<char>, a: nat, b: nat)
    requires
        numbered(name, a) == numbered(name, b),
    ensures
        a == b,
{
    let head = or_empty(file_stem(name)) + "_"@;
    let tail = dotted_extension(name);
    let x = numbered(name, a);
    assert(x.len() == head.len() + decimal(a).len() + tail.len());
    assert(numbered(name, b).len() == head.len() + decimal(b).len() + tail.len());
    assert(decimal(a) =~= x.subrange(head.len() as int, (head.len() + decimal(a).len()) as int));
    assert(decimal(b) =~= numbered(name, b).subrange(
        head.len() as int,
        (head.len() + decimal(b).len()) as int,
    ));
    law_decimal_reads_back(a);
    law_decimal_reads_back(b);
}

/// Of more numbers than there are used names, one makes the name free.
proof fn lemma_some_number_is_free(name: Seq<char>, used: Set<Seq<char>>, n: nat)
    requires
        used.finite(),
        used.len() <= n,
    ensures
        exists|k: nat| 1 <= k <= n + 1 && !used.contains(#[trigger] numbered(name, k)),
{
    if forall|k: nat| 1 <= k <= n + 1 ==> used.contains(#[trigger] numbered(name, k)) {
        let all = Seq::new(n + 1, |i: int| numbered(name, (i + 1) as nat));
        assert(all.no_duplicates()) by {
            assert forall|i: int, j: int| 0 <= i < all.len() && 0 <= j < all.len() && i
                != j implies all[i] != all[j] by {
                if all[i] == all[j] {
                    lemma_numbered_injective(name, (i + 1) as nat, (j + 1) as nat);
                }
            }
        }
        all.unique_seq_to_set();
        assert(all.to_set().subset_of(used)) by {
            assert forall|x: Seq<char>| all.to_set().contains(x) implies used.contains(x) by {
                let i = choose|i: int| 0 <= i < all.len() && all[i] == x;
                assert(used.contains(numbered(name, (i + 1) as nat)));
            }
        }
        vstd::set_lib::lemma_len_subset(all.to_set(), used);
    }
}

/// Picks a name that is not in use and marks it as used: the wanted name if
/// it is free, else the wanted name with `_1`, `_2`, … behind its stem.
pub fn unique_file_name(name: &str, used_names: &mut NameSet) -> (r: String)
    requires
        old(used_names).count() < u32::MAX,
    ensures
        is_free_name(r@, name@, old(used_names)@),
        !old(used_names)@.contains(r@),
        final(used_names)@ == old(used_names)@.insert(r@),
        final(used_names).count() == old(used_names).count() + 1,
{
    if !used_names.contains(name) {
        used_names.insert(name);
        return name.to_owned();
    }
    let (stem, ext) = split_extension(name);
    let mut head: String = match stem {
        Some(s) => s,
        None => String::new(),
    };
    head.append("_");
    let tail: String = match ext {
        Some(e) => joined(".", &e),
        None => "".to_owned(),
    };
    let limit: usize = used_names.len();
    proof {
        lemma_some_number_is_free(name@, used_names@, limit as nat);
    }
    let mut n: usize = 1;
    loop
        invariant
            used_names@ == old(used_names)@,
            used_names.count() == old(used_names).count(),
            used_names@.contains(name@),
            head@ == or_empty(file_stem(name@)) + "_"@,
            tail@ == dotted_extension(name@),
            1 <= n <= limit + 1 <= u32::MAX,
            exists|k: nat|
                n <= k <= limit + 1 && !used_names@.contains(#[trigger] numbered(name@, k)),
            forall|k: nat| 1 <= k < n ==> used_names@.contains(#[trigger] numbered(name@, k)),
        decreases limit + 1 - n,
    {
        let mut candidate: String = head.clone();
        push_decimal(&mut candidate, n);
        candidate.append(&tail);
        assert(candidate@ == numbered(name@, n as nat));
        if !used_names.contains(&candidate) {
            used_names.insert(&candidate);
            return candidate;
        }
        n += 1;
    }
}

/// A path without a slash is its own file name, or names nothing.
proof fn lemma_flat_file_name(name: Seq<char>)
    requires
        !name.contains('/'),
    ensures
        file_name(name) is None || file_name(name) == Some(name),
{
    lemma_skip(name, but('/'), 0);
    let j = skip(name, but('/'), 0);
    if j < name.len() {
        assert(name.contains(name[j]));
    }
    let parts = pieces(name, '/');
    assert(parts[0] =~= name);
    assert(parts.len() == 1);
    reveal_with_fuel(last_named, 2);
}

/// A name that a file gets for a wanted name that is safe holds no forbidden
/// character and no white space either.
pub proof fn law_free_name_is_safe(r: Seq<char>, name: Seq<char>, used: Set<Seq<char>>, i: int)
    requires
        is_safe_name(name),
        is_free_name(r, name, used),
        0 <= i < r.len(),
    ensures
        !is_forbidden(r[i]),
        !is_white_space(r[i]),
{
    if used.contains(name) {
        let n = choose|n: nat|
            n >= 1 && r == #[trigger] numbered(name, n) && (forall|k: nat|
                1 <= k < n ==> used.contains(#[trigger] numbered(name, k)));
        reveal_strlit("_");
        reveal_strlit(".");
        reveal_strlit("");
        assert(!name.contains('/')) by {
            if name.contains('/') {
                let k = choose|k: int| 0 <= k < name.len() && name[k] == '/';
                assert(!is_forbidden(name[k]));
            }
        }
        lemma_flat_file_name(name);
        lemma_last_index_from(name, "."@, name.len() - 1);
        lemma_decimal_digits(n);
        let stem = or_empty(file_stem(name));
        let digits = decimal(n);
        let tail = dotted_extension(name);
        assert(forall|k: int| 0 <= k < stem.len() ==> stem[k] == name[k]);
        assert(forall|k: int|
            0 <= k < tail.len() ==> tail[k] == '.' || exists|m: int|
                0 <= m < name.len() && tail[k] == name[m]) by {
            assert forall|k: int| 0 <= k < tail.len() implies tail[k] == '.' || exists|m: int|
                0 <= m < name.len() && tail[k] == name[m] by {
                if k > 0 {
                    let dot = extension_dot(name)->0;
                    assert(tail[k] == name[dot + k]);
                }
            }
        }
        if i < stem.len() {
            assert(r[i] == stem[i]);
            assert(!is_forbidden(name[i]) && !is_white_space(name[i]));
        } else if i == stem.len() {
            assert(r[i] == '_');
        } else if i < stem.len() + 1 + digits.len() {
            assert(r[i] == digits[i - stem.len() - 1]);
        } else {
            let k = i - stem.len() - 1 - digits.len();
            assert(r[i] == tail[k]);
            if tail[k] != '.' {
                let m = choose|m: int| 0 <= m < name.len() && tail[k] == name[m];
                assert(!is_forbidden(name[m]) && !is_white_space(name[m]));
            }
        }
    }
}

// ── Names of downloads ─────────────────────────────────────────────

/// The pattern of an encoded file name in a header.
pub const DISPOSITION_UTF8_NAME: &'static str = r"(?i)filename\*=UTF-8''([^;]+)";

/// The pattern of a plain file name in a header.
pub const DISPOSITION_NAME: &'static str = r#"(?i)filename="?([^"]+)"?"#;

/// The response headers that a file name is taken from.
#[derive(Debug, Clone)]
pub struct HeaderHints<'a> {
    pub content_disposition: Option<&'a str>,
    pub content_type: Option<&'a str>,
}

impl<'a> Default for HeaderHints<'a> {
    fn default() -> (r: Self)
        ensures
            r.content_disposition is None,
            r.content_type is None,
    {
        HeaderHints { content_disposition: None, content_type: None }
    }
}

/// The file name that a `Content-Disposition` header gives: the encoded form
/// if there is one, else the plain form.
pub open spec fn disposition_name(header: Seq<char>) -> Option<Seq<char>> {
    match first_match(DISPOSITION_UTF8_NAME@, header) {
        Some(m) => Some(percent_decoded(group_text(header, m, 1))),
        None => match first_match(DISPOSITION_NAME@, header) {
            Some(m) => Some(group_text(header, m, 1)),
            None => None,
        },
    }
}

/// The file name that a `Content-Disposition` header gives.
pub fn name_from_disposition(header: &str) -> (r: Option<String>)
    ensures
        opt_view(r) == disposition_name(header@),
{
    let t = chars_of(header);
    if let Some(m) = find_first(DISPOSITION_UTF8_NAME, header) {
        return Some(percent_decode(&m.group_text(&t, 1)));
    }
    match find_first(DISPOSITION_NAME, header) {
        Some(m) => Some(m.group_text(&t, 1)),
        None => None,
    }
}

/// The file name that a URL gives: its last path segment, decoded.
pub open spec fn url_name(url: Seq<char>) -> Option<Seq<char>> {
    match url_read(url) {
        Some(u) => {
            let base = or_empty(u.last_segment());
            if base.len() > 0 && base != "/"@ && base != "."@ {
                Some(percent_decoded(base))
            } else {
                None
            }
        },
        None => None,
    }
}

/// The file name that a URL gives.
pub fn name_from_url(url: &str) -> (r: Option<String>)
    ensures
        opt_view(r) == url_name(url@),
{
    match parse_url(url) {
        Some(u) => {
            let base = match u.last_segment() {
                Some(s) => s,
                None => String::new(),
            };
            if chars_of(&base).len() > 0 && !same_text(&base, "/") && !same_text(&base, ".") {
                Some(percent_decode(&base))
            } else {
                None
            }
        },
        None => None,
    }
}

/// The name that a download should get: the one that was found, else the
/// fallback, with the extension of its media type where it has none, made
/// safe.
pub open spec fn wanted_name(
    found: Option<Seq<char>>,
    fallback: Seq<char>,
    content_type: Option<Seq<char>>,
) -> Seq<char> {
    let name = match found {
        Some(n) => n,
        None => fallback,
    };
    let full = match content_type {
        Some(ct) => if extension(name) is None {
            name + media_extension(media_type(ct))
        } else {
            name
        },
        None => name,
    };
    sanitized(full)
}

/// The name that a download should get.
pub fn choose_file_name(found: Option<String>, fallback: &str, content_type: Option<&str>) -> (r:
    String)
    ensures
        r@ == wanted_name(opt_view(found), fallback@, str_view(content_type)),
{
    let mut name: String = match found {
        Some(n) => n,
        None => fallback.to_owned(),
    };
    if let Some(ct) = content_type {
        let (_, ext) = split_extension(&name);
        if ext.is_none() {
            name.append(ext_from_content_type(ct));
        }
    }
    sanitize_file_name(&name)
}

/// The name that the headers give, else the name that the URL gives.
pub open spec fn download_name(url: Seq<char>, content_disposition: Option<Seq<char>>) -> Option<
    Seq<char>,
> {
    let disposed = match content_disposition {
        Some(cd) => disposition_name(cd),
        None => None,
    };
    match disposed {
        Some(n) => Some(n),
        None => url_name(url),
    }
}

/// Derives a file name that is not in use from the URL or the headers of a
/// download, and marks it as used.
pub fn get_file_name_from_url_or_headers(
    url: &str,
    headers: &HeaderHints<'_>,
    fallback_base_name: &str,
    used_names: &mut NameSet,
) -> (r: String)
    requires
        old(used_names).count() < u32::MAX,
    ensures
        is_free_name(
            r@,
            wanted_name(
                download_name(url@, str_view(headers.content_disposition)),
                fallback_base_name@,
                str_view(headers.content_type),
            ),
            old(used_names)@,
        ),
        !old(used_names)@.contains(r@),
        final(used_names)@ == old(used_names)@.insert(r@),
        final(used_names).count() == old(used_names).count() + 1,
{
    let mut found: Option<String> = None;
    if let Some(cd) = headers.content_disposition {
        found = name_from_disposition(cd);
    }
    if found.is_none() {
        found = name_from_url(url);
    }
    let wanted = choose_file_name(found, fallback_base_name, headers.content_type);
    unique_file_name(&wanted, used_names)
}

// ── Asset paths ────────────────────────────────────────────────────

/// Where the assets of a page go.
#[derive(Debug, Clone)]
pub struct AssetsInfo {
    pub assets_dir_name: String,
    pub assets_abs_dir: String,
    pub markdown_image_prefix: String,
}

/// The name of the asset directory of a page.
pub open spec fn assets_dir(page_id: Seq<char>, title: Seq<char>) -> Seq<char> {
    sanitized(
        if title.len() == 0 {
            "page-"@ + page_id
        } else {
            title
        },
    ) + "_assets"@
}

/// The path of an entry of a directory.
pub open spec fn entry_path(dir: Seq<char>, name: Seq<char>) -> Seq<char> {
    if dir.len() == 0 || dir.last() == '/' {
        dir + name
    } else {
        dir + "/"@ + name
    }
}

/// A path without the slashes and single-dot components at its end. A single
/// dot at the start of a path stays.
pub open spec fn without_tail(path: Seq<char>) -> Seq<char>
    decreases path.len(),
{
    let n = path.len();
    if n == 0 {
        path
    } else if path.last() == '/' {
        without_tail(path.drop_last())
    } else if n >= 2 && path.last() == '.' && path[n - 2] == '/' {
        without_tail(path.drop_last())
    } else {
        path
    }
}

/// The directory of a slash-separated path. A name alone stands in the empty
/// directory; a path that names nothing counts as standing in `.`.
pub open spec fn parent_dir(path: Seq<char>) -> Seq<char> {
    let t = without_tail(path);
    if t.len() == 0 {
        "."@
    } else {
        let dir = match last_index(t, "/"@) {
            Some(i) => without_tail(t.take(i)),
            None => Seq::empty(),
        };
        if dir.len() == 0 && path[0] == '/' {
            "/"@
        } else {
            dir
        }
    }
}

fn drop_tail(path: &str) -> (r: String)
    ensures
        r@ == without_tail(path@),
{
    let t = chars_of(path);
    let mut n: usize = t.len();
    assert(t@.take(n as int) =~= t@);
    while n > 0 && (t[n - 1] == '/' || (n >= 2 && t[n - 1] == '.' && t[n - 2] == '/'))
        invariant
            t@ == path@,
            n <= t.len(),
            without_tail(path@) == without_tail(t@.take(n as int)),
        decreases n,
    {
        assert(t@.take(n as int).drop_last() =~= t@.take(n - 1));
        n -= 1;
    }
    let r = part(&t, 0, n);
    assert(r@ =~= t@.take(n as int));
    r
}

fn parent_of(path: &str) -> (r: String)
    ensures
        r@ == parent_dir(path@),
{
    let tailless = drop_tail(path);
    let t = chars_of(&tailless);
    if t.len() == 0 {
        return ".".to_owned();
    }
    proof {
        lemma_last_index_from(t@, "/"@, t@.len() - "/"@.len());
        lemma_tailless(path@);
    }
    let dir = match find_last(&t, "/") {
        Some(i) => {
            let head = part(&t, 0, i);
            assert(head@ =~= t@.take(i as int));
            drop_tail(&head)
        },
        None => String::new(),
    };
    let first: char = chars_of(path)[0];
    if chars_of(&dir).len() == 0 && first == '/' {
        "/".to_owned()
    } else {
        dir
    }
}

proof fn lemma_tailless(path: Seq<char>)
    ensures
        without_tail(path).len() <= path.len(),
    decreases path.len(),
{
    if path.len() > 0 {
        lemma_tailless(path.drop_last());
    }
}

/// A path as seen from a directory: an absolute path stands for itself, and so
/// does any path where the directory is not known.
pub open spec fn absolute_path(path: Seq<char>, current_dir: Option<Seq<char>>) -> Seq<char> {
    if path.len() > 0 && path[0] == '/' {
        path
    } else {
        match current_dir {
            Some(dir) => entry_path(dir, path),
            None => path,
        }
    }
}

fn join_path(dir: &str, name: &str) -> (r: String)
    ensures
        r@ == entry_path(dir@, name@),
{
    let t = chars_of(dir);
    let mut out: String = dir.to_owned();
    if t.len() > 0 && t[t.len() - 1] != '/' {
        out.append("/");
    }
    out.append(name);
    out
}

/// Where the assets of a page go whose document is written to the file
/// `output_path`: into a directory beside that file. A relative path is taken
/// from the current directory, where that is known.
///
/// The prefix is used inside Markdown image paths, so it has forward slashes.
pub fn make_assets_info(
    page_id: &str,
    title: &str,
    output_path: &str,
    current_dir: Option<&str>,
) -> (r: AssetsInfo)
    ensures
        r.assets_dir_name@ == assets_dir(page_id@, title@),
        r.assets_abs_dir@ == entry_path(
            parent_dir(absolute_path(output_path@, str_view(current_dir))),
            assets_dir(page_id@, title@),
        ),
        r.markdown_image_prefix@ == replaced(assets_dir(page_id@, title@), "\\"@, "/"@),
{
    let safe_base = if chars_of(title).len() == 0 {
        sanitize_file_name(&joined("page-", page_id))
    } else {
        sanitize_file_name(title)
    };
    let assets_dir_name = joined(&safe_base, "_assets");
    let path = chars_of(output_path);
    let output_abs_path = if path.len() > 0 && path[0] == '/' {
        output_path.to_owned()
    } else {
        match current_dir {
            Some(dir) => join_path(dir, output_path),
            None => output_path.to_owned(),
        }
    };
    let assets_abs_dir = join_path(&parent_of(&output_abs_path), &assets_dir_name);
    proof {
        reveal_strlit("\\");
    }
    let markdown_image_prefix = replace(&assets_dir_name, "\\", "/");
    AssetsInfo { assets_dir_name, assets_abs_dir, markdown_image_prefix }
}

/// The path of an asset as a Markdown image reference holds it.
pub open spec fn asset_path(prefix: Seq<char>, name: Seq<char>) -> Seq<char> {
    percent_encoded(replaced(prefix + "/"@ + name, "\\"@, "/"@), COMPONENT_MARKS@)
}

/// The escaped path of an asset, as it is used inside Markdown image
/// references: one URI component.
pub fn to_markdown_asset_path(markdown_image_prefix: &str, file_name: &str) -> (r: String)
    ensures
        r@ == asset_path(markdown_image_prefix@, file_name@),
{
    let mut rel_path: String = markdown_image_prefix.to_owned();
    rel_path.append("/");
    rel_path.append(file_name);
    proof {
        reveal_strlit("\\");
    }
    let rel_path = replace(&rel_path, "\\", "/");
    percent_encode(&rel_path, COMPONENT_MARKS)
}

} // verus!
