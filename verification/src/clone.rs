//! `clone`: option decisions and the parsing of URLs, names and config text.
use vstd::prelude::*;
use vstd::string::StringSliceAdditionalSpecFns;
use crate::cherry_pick::opt_view;
use crate::text::{
    all_hex, byte_len, char_is_hex_digit, chars_of, contains_seq, ends_with, eq_lit, find, find_at,
    has_prefix, has_suffix, is_hex_digit, lemma_find_from_props, lemma_rfind_upto_props, lines,
    lower, lowercase_range, occurs, occurs_at, push_all, push_range, rfind, rfind_all,
    join, split_lines, starts_with, string_all, string_of, trim, trim_bounds, views, pos_of, lemma_pos_of,
    seq_eq, lemma_views_push,
};

verus! {

/// Arguments for `clone` (the option parser's result).
pub struct Args {
    /// Repository to clone.
    pub repository: String,
    /// Target directory (defaults to the repository's basename).
    pub directory: Option<String>,
    /// `-o` / `--origin`: name of the remote.
    pub origin: Option<String>,
    /// `--bare`.
    pub bare: bool,
    /// `--depth`.
    pub depth: Option<usize>,
    /// `--shallow-since`.
    pub shallow_since: Option<String>,
    /// `--shallow-exclude`.
    pub shallow_exclude: Vec<String>,
    /// `--bundle-uri`.
    pub bundle_uri: Option<String>,
    /// `--reject-shallow`.
    pub reject_shallow: bool,
    /// `--no-reject-shallow`.
    pub no_reject_shallow: bool,
    /// `--progress`.
    pub progress: bool,
    /// `-b` / `--branch`.
    pub branch: Option<String>,
    /// `-n` / `--no-checkout`.
    pub no_checkout: bool,
    /// `-q` / `--quiet`.
    pub quiet: bool,
    /// `-c` / `--config` entries (`key=value`).
    pub config: Vec<String>,
    /// `--revision`.
    pub revision: Option<String>,
    /// `--template`.
    pub template: Option<String>,
    /// `--mirror`.
    pub mirror: bool,
    /// `--single-branch`.
    pub single_branch: bool,
    /// `--no-single-branch`.
    pub no_single_branch: bool,
    /// `--no-tags`.
    pub no_tags: bool,
    /// `--recurse-submodules`.
    pub recurse_submodules: bool,
    /// `-j` / `--jobs`.
    pub jobs: Option<usize>,
    /// `--remote-submodules`.
    pub remote_submodules: bool,
    /// `--shallow-submodules`.
    pub shallow_submodules: bool,
    /// `--no-shallow-submodules`.
    pub no_shallow_submodules: bool,
    /// `--also-filter-submodules`.
    pub also_filter_submodules: bool,
    /// `-u` / `--upload-pack`.
    pub upload_pack: Option<String>,
    /// `--server-option`.
    pub server_options: Vec<String>,
    /// `-l` / `--local`.
    pub local: bool,
    /// `--no-local`.
    pub no_local: bool,
    /// `--no-hardlinks`.
    pub no_hardlinks: bool,
    /// `--filter` specs (repeated filters are combined).
    pub filter: Vec<String>,
    /// `--sparse`.
    pub sparse: bool,
    /// `-s` / `--shared`.
    pub shared: bool,
    /// `--reference`.
    pub reference: Vec<String>,
    /// `--reference-if-able`.
    pub reference_if_able: Vec<String>,
    /// `--dissociate`.
    pub dissociate: bool,
    /// `-4` / `--ipv4`.
    pub ipv4: bool,
    /// `-6` / `--ipv6`.
    pub ipv6: bool,
    /// `--separate-git-dir`, as a path string.
    pub separate_git_dir: Option<String>,
    /// `--ref-format`.
    pub ref_format: Option<String>,
}

/// The ref storage named by `--ref-format`: `files` (also when not given) or `reftable`, or
/// the error message for any other name.
pub open spec fn ref_storage_spec(fmt: Option<Seq<char>>) -> Result<Seq<char>, Seq<char>> {
    match fmt {
        None => Ok("files"@),
        Some(f) => if f == "files"@ {
            Ok("files"@)
        } else if f == "reftable"@ {
            Ok("reftable"@)
        } else {
            Err("fatal: unknown ref storage format '"@ + f + "'"@)
        },
    }
}

pub fn resolved_clone_ref_storage(args: &Args) -> (r: Result<&'static str, String>)
    ensures
        match r {
            Ok(s) => ref_storage_spec(opt_view(args.ref_format)) == Ok::<Seq<char>, Seq<char>>(s@),
            Err(e) => ref_storage_spec(opt_view(args.ref_format)) == Err::<Seq<char>, Seq<char>>(e@),
        },
{
    match &args.ref_format {
        None => Ok("files"),
        Some(f) => {
            let v = chars_of(f.as_str());
            if eq_lit(&v, "files") {
                Ok("files")
            } else if eq_lit(&v, "reftable") {
                Ok("reftable")
            } else {
                let mut e = chars_of("fatal: unknown ref storage format '");
                push_all(&mut e, &v);
                let q = chars_of("'");
                push_all(&mut e, &q);
                assert(e@ =~= "fatal: unknown ref storage format '"@ + f@ + "'"@);
                Err(string_all(&e))
            }
        },
    }
}

/// The value of the first `-c clone.defaultRemoteName=<name>` (key compared without case,
/// key and value trimmed) among the entries from `i` on.
pub open spec fn default_remote_from(config: Seq<Seq<char>>, i: int) -> Option<Seq<char>>
    decreases config.len() - i,
{
    if i < 0 || i >= config.len() {
        None
    } else {
        let e = config[i];
        match find(e, seq!['=']) {
            Some(q) => if lower(trim(e.take(q))) == "clone.defaultremotename"@ {
                Some(trim(e.subrange(q + 1, e.len() as int)))
            } else {
                default_remote_from(config, i + 1)
            },
            None => default_remote_from(config, i + 1),
        }
    }
}

/// The remote name set by a `-c clone.defaultRemoteName=<name>` entry, if any.
pub fn clone_default_remote_from_c_flags(config: &[String]) -> (r: Option<String>)
    ensures
        opt_view(r) == default_remote_from(views(config@), 0),
{
    let ghost cv = views(config@);
    let eq = vec!['='];
    assert(eq@ =~= seq!['=']);
    let mut i: usize = 0;
    while i < config.len()
        invariant
            cv == views(config@),
            eq@ == seq!['='],
            i <= config@.len(),
            default_remote_from(cv, i as int) == default_remote_from(cv, 0),
        decreases config@.len() - i,
    {
        let e = chars_of(config[i].as_str());
        assert(e@ == cv[i as int]);
        match find_at(&e, &eq, 0) {
            Some(q) => {
                proof {
                    lemma_find_from_props(e@, eq@, 0);
                    assert(occurs_at(e@, eq@, q as int));
                }
                let (a, b) = trim_bounds(&e, 0, q);
                assert(e@.subrange(0, q as int) =~= e@.take(q as int));
                let low = lowercase_range(&e, a, b);
                if eq_lit(&low, "clone.defaultremotename") {
                    let n = e.len();
                    let (c, d) = trim_bounds(&e, q + 1, n);
                    return Some(string_of(&e, c, d));
                }
            },
            None => {},
        }
        i = i + 1;
    }
    None
}

pub open spec fn is_slash() -> spec_fn(char) -> bool {
    |c: char| c == '/'
}

/// The name of the directory that cloning an HTTP URL creates: the last path segment (after
/// trailing slashes are dropped), without a `.git` suffix.
pub open spec fn url_basename(url: Seq<char>) -> Seq<char> {
    let u = crate::message::trim_trailing(url, is_slash());
    let last = match rfind(u, seq!['/']) {
        Some(p) => u.subrange(p + 1, u.len() as int),
        None => u,
    };
    if ends_with(last, ".git"@) {
        last.take(last.len() - 4)
    } else {
        last
    }
}

/// Slashes at the end of a URL do not change the directory name it gives.
pub proof fn law_url_basename_trailing_slash(url: Seq<char>)
    ensures
        url_basename(url + seq!['/']) == url_basename(url),
{
    assert((url + seq!['/']).drop_last() =~= url);
}

/// A URL without any `/` is its own last segment: `<name>.git` gives `<name>`.
pub proof fn law_url_basename_no_slash(name: Seq<char>)
    requires
        name.len() > 0,
        !name.contains('/'),
    ensures
        url_basename(name + ".git"@) == name,
{
    reveal_strlit(".git");
    let g = ".git"@;
    let u = name + g;
    assert(u.last() == 't');
    assert(crate::message::trim_trailing(u, is_slash()) == u);
    crate::text::lemma_rfind_upto_props(u, seq!['/'], u.len() - 1);
    if let Some(j) = rfind(u, seq!['/']) {
        assert(u.subrange(j, j + 1)[0] == '/');
        if j < name.len() {
            assert(u[j] == name[j]);
            assert(name.contains(name[j]));
        } else {
            assert(u[j] == g[j - name.len()]);
        }
    }
    assert(ends_with(u, g)) by {
        assert(u.subrange(u.len() - 4, u.len() as int) =~= g);
    }
    assert(u.take(u.len() - 4) =~= name);
}

/// The directory name of `<prefix>/<name>.git` is `<name>`, and so is that of
/// `<prefix>/<name>` when the name does not itself end with `.git`: the last path segment,
/// one `.git` suffix removed.
pub proof fn law_url_basename_last_segment(prefix: Seq<char>, name: Seq<char>)
    requires
        name.len() > 0,
        !name.contains('/'),
    ensures
        url_basename(prefix + seq!['/'] + name + ".git"@) == name,
        !ends_with(name, ".git"@) ==> url_basename(prefix + seq!['/'] + name) == name,
{
    reveal_strlit(".git");
    let g = ".git"@;
    let u1 = prefix + seq!['/'] + name + g;
    let u2 = prefix + seq!['/'] + name;
    let k = prefix.len() as int;
    assert(u1.last() == 't');
    assert(name.last() != '/') by {
        assert(name.contains(name[name.len() - 1]));
    }
    assert(crate::message::trim_trailing(u1, is_slash()) == u1);
    assert(crate::message::trim_trailing(u2, is_slash()) == u2);
    assert(crate::text::occurs_at(u1, seq!['/'], k)) by {
        assert(u1.subrange(k, k + 1) =~= seq!['/']);
    }
    assert(crate::text::occurs_at(u2, seq!['/'], k)) by {
        assert(u2.subrange(k, k + 1) =~= seq!['/']);
    }
    assert forall|j: int| k < j <= u1.len() - 1 implies !crate::text::occurs_at(u1, seq!['/'], j) by {
        if crate::text::occurs_at(u1, seq!['/'], j) {
            assert(u1.subrange(j, j + 1)[0] == '/');
            if j < k + 1 + name.len() {
                assert(u1[j] == name[j - k - 1]);
                assert(name.contains(name[j - k - 1]));
            } else {
                assert(u1[j] == g[j - k - 1 - name.len()]);
            }
        }
    }
    assert forall|j: int| k < j <= u2.len() - 1 implies !crate::text::occurs_at(u2, seq!['/'], j) by {
        if crate::text::occurs_at(u2, seq!['/'], j) {
            assert(u2.subrange(j, j + 1)[0] == '/');
            assert(u2[j] == name[j - k - 1]);
            assert(name.contains(name[j - k - 1]));
        }
    }
    crate::cherry_pick::lemma_rfind_upto_exact(u1, seq!['/'], u1.len() - 1, k);
    crate::cherry_pick::lemma_rfind_upto_exact(u2, seq!['/'], u2.len() - 1, k);
    let last1 = u1.subrange(k + 1, u1.len() as int);
    assert(last1 =~= name + g);
    assert(ends_with(last1, g)) by {
        assert(last1.subrange(last1.len() - 4, last1.len() as int) =~= g);
    }
    assert(last1.take(last1.len() - 4) =~= name);
    assert(u2.subrange(k + 1, u2.len() as int) =~= name);
}

pub fn http_url_basename(url: &str) -> (r: String)
    ensures
        r@ == url_basename(url@),
{
    let v = chars_of(url);
    let mut end = v.len();
    assert(v@.take(v@.len() as int) =~= v@);
    while end > 0 && v[end - 1] == '/'
        invariant
            end <= v@.len(),
            crate::message::trim_trailing(v@.take(end as int), is_slash())
                == crate::message::trim_trailing(v@, is_slash()),
        decreases end,
    {
        assert(v@.take(end as int).drop_last() =~= v@.take(end - 1));
        end = end - 1;
    }
    assert(v@.take(v@.len() as int) =~= v@);
    let mut u: Vec<char> = Vec::new();
    push_range(&mut u, &v, 0, end);
    assert(u@ =~= v@.take(end as int));
    let slash = vec!['/'];
    assert(slash@ =~= seq!['/']);
    let start = match rfind_all(&u, &slash) {
        Some(p) => {
            proof {
                lemma_rfind_upto_props(u@, slash@, u@.len() - slash@.len());
                assert(occurs_at(u@, slash@, p as int));
            }
            p + 1
        },
        None => 0,
    };
    let mut last: Vec<char> = Vec::new();
    let un = u.len();
    push_range(&mut last, &u, start, un);
    assert(start == 0 ==> u@.subrange(0, un as int) =~= u@);
    let dotgit = chars_of(".git");
    proof {
        reveal_strlit(".git");
    }
    if has_suffix(&last, &dotgit) {
        let k = last.len() - 4;
        assert(last@.take(k as int) =~= last@.subrange(0, k as int));
        string_of(&last, 0, k)
    } else {
        string_all(&last)
    }
}

/// Refuses a target name that holds a newline or a carriage return.
pub fn validate_clone_target_name(name: &str) -> (r: Result<(), String>)
    ensures
        match r {
            Ok(()) => !name@.contains('\n') && !name@.contains('\r'),
            Err(e) => (name@.contains('\n') || name@.contains('\r')) && e@
                == "bundle-uri: filename is malformed: "@ + name@,
        },
{
    let v = chars_of(name);
    let mut k: usize = 0;
    while k < v.len()
        invariant
            v@ == name@,
            k <= v@.len(),
            forall|j: int| 0 <= j < k ==> v@[j] != '\n' && v@[j] != '\r',
        decreases v@.len() - k,
    {
        if v[k] == '\n' || v[k] == '\r' {
            assert(name@[k as int] == v@[k as int]);
            let mut e = chars_of("bundle-uri: filename is malformed: ");
            push_all(&mut e, &v);
            assert(e@ =~= "bundle-uri: filename is malformed: "@ + name@);
            return Err(string_all(&e));
        }
        k = k + 1;
    }
    assert(!name@.contains('\n') && !name@.contains('\r')) by {
        if name@.contains('\n') {
            let j = choose|j: int| 0 <= j < name@.len() && name@[j] == '\n';
            assert(v@[j] == '\n');
        }
        if name@.contains('\r') {
            let j = choose|j: int| 0 <= j < name@.len() && name@[j] == '\r';
            assert(v@[j] == '\r');
        }
    }
    Ok(())
}

/// scp-like SSH syntax `host:path`: no `://`, a `:` with no `/` before it, and something on
/// both sides of it.
pub open spec fn ssh_url_spec(url: Seq<char>) -> bool {
    if contains_seq(url, "://"@) {
        false
    } else {
        match find(url, seq![':']) {
            None => false,
            Some(ci) => match find(url, seq!['/']) {
                Some(si) => if si < ci {
                    false
                } else {
                    ci > 0 && ci + 1 < url.len()
                },
                None => ci > 0 && ci + 1 < url.len(),
            },
        }
    }
}

pub fn is_ssh_url(url: &str) -> (r: bool)
    ensures
        r == ssh_url_spec(url@),
{
    let v = chars_of(url);
    let sep = chars_of("://");
    match find_at(&v, &sep, 0) {
        Some(_) => {
            proof {
                lemma_find_from_props(v@, sep@, 0);
            }
            return false;
        },
        None => {
            proof {
                lemma_find_from_props(v@, sep@, 0);
            }
        },
    }
    let colon = vec![':'];
    let slash = vec!['/'];
    assert(colon@ =~= seq![':']);
    assert(slash@ =~= seq!['/']);
    let ci = match find_at(&v, &colon, 0) {
        Some(c) => c,
        None => {
            return false;
        },
    };
    proof {
        lemma_find_from_props(v@, colon@, 0);
        assert(occurs_at(v@, colon@, ci as int));
    }
    match find_at(&v, &slash, 0) {
        Some(si) => {
            if si < ci {
                return false;
            }
        },
        None => {},
    }
    let n = v.len();
    ci > 0 && ci + 1 < n
}

/// The `url` of remote `name` in config text: in a section that starts with
/// `[remote "<name>"]`, the first line (trimmed) that starts with `url = ` or `url=`, trimmed.
pub open spec fn remote_url_from(ls: Seq<Seq<char>>, i: int, section: Seq<char>, inside: bool) -> Option<Seq<char>>
    decreases ls.len() - i,
{
    if i < 0 || i >= ls.len() {
        None
    } else {
        let t = trim(ls[i]);
        if starts_with(t, "["@) {
            remote_url_from(ls, i + 1, section, starts_with(t, section))
        } else if inside && starts_with(t, "url = "@) {
            Some(trim(t.subrange(6, t.len() as int)))
        } else if inside && starts_with(t, "url="@) {
            Some(trim(t.subrange(4, t.len() as int)))
        } else {
            remote_url_from(ls, i + 1, section, inside)
        }
    }
}

pub open spec fn remote_section(name: Seq<char>) -> Seq<char> {
    "[remote \""@ + name + "\"]"@
}

/// Finds the URL of a remote in the text of a config file.
pub fn extract_remote_url(config: &str, remote_name: &str) -> (r: Option<String>)
    ensures
        opt_view(r) == remote_url_from(lines(config@), 0, remote_section(remote_name@), false),
{
    let v = chars_of(config);
    let mut section = chars_of("[remote \"");
    let nv = chars_of(remote_name);
    push_all(&mut section, &nv);
    let close = chars_of("\"]");
    push_all(&mut section, &close);
    assert(section@ =~= remote_section(remote_name@));
    let bracket = chars_of("[");
    let url_sp = chars_of("url = ");
    let url_eq = chars_of("url=");
    proof {
        reveal_strlit("url = ");
        reveal_strlit("url=");
    }
    let ls = split_lines(&v);
    let ghost lsv = lines(v@);
    let mut inside = false;
    let mut i: usize = 0;
    while i < ls.len()
        invariant
            lsv == lines(v@),
            v@ == config@,
            section@ == remote_section(remote_name@),
            bracket@ == "["@,
            url_sp@ == "url = "@,
            url_eq@ == "url="@,
            url_sp@.len() == 6,
            url_eq@.len() == 4,
            ls@.len() == lsv.len(),
            forall|j: int|
                #![trigger ls@[j]]
                0 <= j < ls@.len() ==> ls@[j].0 <= ls@[j].1 <= v@.len() && v@.subrange(
                    ls@[j].0 as int,
                    ls@[j].1 as int,
                ) == lsv[j],
            i <= ls@.len(),
            remote_url_from(lsv, i as int, section@, inside) == remote_url_from(lsv, 0, section@, false),
        decreases ls@.len() - i,
    {
        let (lo, hi) = ls[i];
        assert(v@.subrange(lo as int, hi as int) == lsv[i as int]);
        let (a, b) = trim_bounds(&v, lo, hi);
        let mut t: Vec<char> = Vec::new();
        push_range(&mut t, &v, a, b);
        assert(t@ =~= trim(lsv[i as int]));
        if has_prefix(&t, &bracket) {
            inside = has_prefix(&t, &section);
        } else if inside && has_prefix(&t, &url_sp) {
            let tn = t.len();
            let (c, d) = trim_bounds(&t, 6, tn);
            return Some(string_of(&t, c, d));
        } else if inside && has_prefix(&t, &url_eq) {
            let tn = t.len();
            let (c, d) = trim_bounds(&t, 4, tn);
            return Some(string_of(&t, c, d));
        }
        i = i + 1;
    }
    None
}

/// Between 4 and 40 bytes, all hex digits.
pub open spec fn hex_object_id_like(s: Seq<char>) -> bool {
    4 <= byte_len(s) <= 40 && all_hex(s)
}

pub fn looks_like_hex_object_id(s: &str) -> (r: bool)
    ensures
        r == hex_object_id_like(s@),
{
    let n = s.as_bytes().len();
    if n < 4 || n > 40 {
        return false;
    }
    let v = chars_of(s);
    let mut k: usize = 0;
    while k < v.len()
        invariant
            v@ == s@,
            4 <= n <= 40,
            n == byte_len(s@),
            k <= v@.len(),
            forall|j: int| 0 <= j < k ==> #[trigger] is_hex_digit(v@[j]),
        decreases v@.len() - k,
    {
        if !char_is_hex_digit(v[k]) {
            return false;
        }
        k = k + 1;
    }
    true
}

/// A byte that is an ASCII hex digit.
pub open spec fn is_hex_byte(b: u8) -> bool {
    (48 <= b && b <= 57) || (97 <= b && b <= 102) || (65 <= b && b <= 70)
}

/// The value of a hex digit byte.
pub open spec fn hex_val(b: u8) -> nat {
    if 48 <= b && b <= 57 {
        (b - 48) as nat
    } else if 97 <= b && b <= 102 {
        (b - 87) as nat
    } else {
        (b - 55) as nat
    }
}

/// `u8::from_str_radix` on the two characters `h1 h2` in base 16 (a leading `+` is allowed);
/// only ASCII characters can be digits, so the bytes decide.
pub open spec fn hex_pair(h1: u8, h2: u8) -> Option<u8> {
    if h1 == 43 {
        if is_hex_byte(h2) {
            Some(hex_val(h2) as u8)
        } else {
            None
        }
    } else if is_hex_byte(h1) && is_hex_byte(h2) {
        Some((hex_val(h1) * 16 + hex_val(h2)) as u8)
    } else {
        None
    }
}

/// Decoding the `%XX` escapes of the UTF-8 bytes `s` from index `i` on (each escape becomes
/// the byte it names, every other byte is kept), after `out`; `None` for a bad escape.
pub open spec fn percent_decode_from(s: Seq<u8>, i: int, out: Seq<u8>) -> Option<Seq<u8>>
    decreases s.len() - i,
{
    if i < 0 || i >= s.len() {
        Some(out)
    } else if s[i] == 37 {
        if i + 2 >= s.len() {
            None
        } else {
            match hex_pair(s[i + 1], s[i + 2]) {
                Some(b) => percent_decode_from(s, i + 3, out.push(b)),
                None => None,
            }
        }
    } else {
        percent_decode_from(s, i + 1, out.push(s[i]))
    }
}

fn hex_digit_value(b: u8) -> (r: u8)
    requires
        is_hex_byte(b),
    ensures
        r == hex_val(b),
{
    if 48 <= b && b <= 57 {
        b - 48
    } else if 97 <= b && b <= 102 {
        b - 87
    } else {
        b - 55
    }
}

fn parse_hex_pair(h1: u8, h2: u8) -> (r: Option<u8>)
    ensures
        r == hex_pair(h1, h2),
{
    let h2_hex = (48 <= h2 && h2 <= 57) || (97 <= h2 && h2 <= 102) || (65 <= h2 && h2 <= 70);
    let h1_hex = (48 <= h1 && h1 <= 57) || (97 <= h1 && h1 <= 102) || (65 <= h1 && h1 <= 70);
    if h1 == 43 {
        if h2_hex {
            Some(hex_digit_value(h2))
        } else {
            None
        }
    } else if h1_hex && h2_hex {
        let a = hex_digit_value(h1);
        let b = hex_digit_value(h2);
        Some(a * 16 + b)
    } else {
        None
    }
}

/// `u8::from_str_radix` in base 16 on the two characters `h1 h2`: only ASCII characters can
/// be digits, so it is [`hex_pair`] on their codes.
pub open spec fn hex_char_pair(h1: char, h2: char) -> Option<u8> {
    if (h1 as u32) < 128 && (h2 as u32) < 128 {
        hex_pair((h1 as u32) as u8, (h2 as u32) as u8)
    } else {
        None
    }
}

/// Decoding the `%XX` escapes of `s` character by character from index `i` on, after `out`:
/// each escape becomes the character whose code is the byte it names, every other character
/// is kept; `None` for a bad escape.
pub open spec fn char_decode_from(s: Seq<char>, i: int, out: Seq<char>) -> Option<Seq<char>>
    decreases s.len() - i,
{
    if i < 0 || i >= s.len() {
        Some(out)
    } else if s[i] == '%' {
        if i + 2 >= s.len() {
            None
        } else {
            match hex_char_pair(s[i + 1], s[i + 2]) {
                Some(b) => char_decode_from(s, i + 3, out.push(b as char)),
                None => None,
            }
        }
    } else {
        char_decode_from(s, i + 1, out.push(s[i]))
    }
}

/// What a `file://` URL path decodes to: when its escapes name bytes that, with the rest of
/// the path, are valid UTF-8, that text (`%C3%A9` is `é`, as in Git's `url_decode`);
/// otherwise each escape stands for the character with that code (`%e9` is `é`), and a bad
/// escape is an error.
pub open spec fn url_path_text(path: Seq<char>) -> Option<Seq<char>> {
    match percent_decode_from(vstd::utf8::encode_utf8(path), 0, Seq::empty()) {
        Some(b) => if vstd::utf8::valid_utf8(b) {
            Some(vstd::utf8::decode_utf8(b))
        } else {
            char_decode_from(path, 0, Seq::empty())
        },
        None => char_decode_from(path, 0, Seq::empty()),
    }
}

/// The code of `c` as a byte, when it is ASCII.
fn ascii_code(c: char) -> (r: Option<u8>)
    ensures
        r == (if (c as u32) < 128 {
            Some((c as u32) as u8)
        } else {
            None
        }),
{
    let n = c as u32;
    if n < 128 {
        Some(n as u8)
    } else {
        None
    }
}

/// The escapes of `path` decoded character by character (see [`char_decode_from`]).
fn char_decode(path: &str) -> (r: Option<String>)
    ensures
        opt_view(r) == char_decode_from(path@, 0, Seq::empty()),
{
    let v = chars_of(path);
    let mut out: Vec<char> = Vec::new();
    let mut i: usize = 0;
    while i < v.len()
        invariant
            v@ == path@,
            i <= v@.len(),
            char_decode_from(v@, i as int, out@) == char_decode_from(v@, 0, Seq::empty()),
        decreases v@.len() - i,
    {
        if v[i] == '%' {
            if v.len() - i <= 2 {
                return None;
            }
            let pair = match (ascii_code(v[i + 1]), ascii_code(v[i + 2])) {
                (Some(a), Some(b)) => parse_hex_pair(a, b),
                _ => None,
            };
            match pair {
                Some(b) => {
                    out.push(b as char);
                    i = i + 3;
                },
                None => {
                    return None;
                },
            }
        } else {
            out.push(v[i]);
            i = i + 1;
        }
    }
    Some(string_all(&out))
}

/// Decodes the `%XX` escapes of a `file://` URL path (see [`url_path_text`]).
pub fn percent_decode_file_url_path(path: &str) -> (r: Result<String, String>)
    ensures
        match url_path_text(path@) {
            Some(t) => r matches Ok(s) && s@ == t,
            None => r matches Err(e) && e@ == "bad % escape in file URL"@,
        },
{
    let v = path.as_bytes();
    let mut out: Vec<u8> = Vec::new();
    let mut i: usize = 0;
    let mut ok = true;
    while i < v.len()
        invariant_except_break
            ok,
            v@ == path.spec_bytes(),
            i <= v@.len(),
            percent_decode_from(v@, i as int, out@) == percent_decode_from(v@, 0, Seq::empty()),
        ensures
            v@ == path.spec_bytes(),
            ok ==> percent_decode_from(v@, 0, Seq::empty()) == Some(out@),
            !ok ==> percent_decode_from(v@, 0, Seq::empty()) is None,
        decreases v@.len() - i,
    {
        if v[i] == 37u8 {
            if v.len() - i <= 2 {
                ok = false;
                break;
            }
            match parse_hex_pair(v[i + 1], v[i + 2]) {
                Some(b) => {
                    out.push(b);
                    i = i + 3;
                },
                None => {
                    ok = false;
                    break;
                },
            }
        } else {
            out.push(v[i]);
            i = i + 1;
        }
    }
    if ok {
        match crate::message::utf8_text(out.as_slice()) {
            Some(t) => {
                return Ok(t);
            },
            None => {},
        }
    }
    match char_decode(path) {
        Some(t) => Ok(t),
        None => Err("bad % escape in file URL".to_owned()),
    }
}

/// The `--filter` values, trimmed, without the empty ones.
pub open spec fn kept_filters(fs: Seq<Seq<char>>) -> Seq<Seq<char>>
    decreases fs.len(),
{
    if fs.len() == 0 {
        Seq::empty()
    } else {
        let rest = kept_filters(fs.drop_last());
        let t = trim(fs.last());
        if t.len() > 0 {
            rest.push(t)
        } else {
            rest
        }
    }
}

/// The partial clone filter: none, the one given, or `combine:<f1>+<f2>+...`.
pub open spec fn filter_spec_of(fs: Seq<Seq<char>>) -> Option<Seq<char>> {
    let k = kept_filters(fs);
    if k.len() == 0 {
        None
    } else if k.len() == 1 {
        Some(k[0])
    } else {
        Some("combine:"@ + join(k, "+"@))
    }
}

pub fn clone_filter_spec(args: &Args) -> (r: Option<String>)
    ensures
        opt_view(r) == filter_spec_of(views(args.filter@)),
{
    let ghost fv = views(args.filter@);
    let mut kept: Vec<Vec<char>> = Vec::new();
    let mut i: usize = 0;
    while i < args.filter.len()
        invariant
            fv == views(args.filter@),
            i <= fv.len(),
            kept@.len() == kept_filters(fv.take(i as int)).len(),
            forall|j: int| 0 <= j < kept@.len() ==> (#[trigger] kept@[j])@ == kept_filters(fv.take(i as int))[j],
        decreases fv.len() - i,
    {
        let v = chars_of(args.filter[i].as_str());
        assert(fv.take(i + 1).drop_last() =~= fv.take(i as int));
        assert(fv.take(i + 1).last() == v@);
        let (a, b) = trim_bounds(&v, 0, v.len());
        assert(v@.subrange(0, v@.len() as int) =~= v@);
        if a < b {
            let mut t: Vec<char> = Vec::new();
            push_range(&mut t, &v, a, b);
            assert(t@ =~= trim(v@));
            kept.push(t);
        }
        i = i + 1;
    }
    assert(fv.take(fv.len() as int) =~= fv);
    let ghost k = kept_filters(fv);
    if kept.len() == 0 {
        return None;
    }
    if kept.len() == 1 {
        return Some(string_all(&kept[0]));
    }
    let mut out = chars_of("combine:");
    let ghost base = out@;
    push_all(&mut out, &kept[0]);
    let mut j: usize = 1;
    assert(k.take(1) =~= seq![k[0]]);
    assert(join(k.take(1), "+"@) == k[0]);
    while j < kept.len()
        invariant
            base == "combine:"@,
            1 <= j <= kept@.len(),
            kept@.len() == k.len(),
            forall|q: int| 0 <= q < kept@.len() ==> (#[trigger] kept@[q])@ == k[q],
            out@ == base + join(k.take(j as int), "+"@),
        decreases kept@.len() - j,
    {
        out.push('+');
        push_all(&mut out, &kept[j]);
        proof {
            reveal_strlit("+");
            assert(k.take(j + 1).drop_last() =~= k.take(j as int));
            assert(k.take(j + 1).last() == k[j as int]);
        }
        j = j + 1;
        assert(out@ =~= base + join(k.take(j as int), "+"@));
    }
    assert(k.take(k.len() as int) =~= k);
    Some(string_all(&out))
}

/// Whether to refuse a shallow source: `--no-reject-shallow` wins, then `--reject-shallow`,
/// then `clone.rejectShallow` being true.
pub fn effective_reject_shallow(args: &Args, config_reject_shallow: bool) -> (r: bool)
    ensures
        r == (!args.no_reject_shallow && (args.reject_shallow || config_reject_shallow)),
{
    if args.no_reject_shallow {
        return false;
    }
    if args.reject_shallow {
        return true;
    }
    config_reject_shallow
}

/// Whether a partial clone filter applies: one was given, and the source allows filtering
/// (`source_allows_filter` is `None` when there is no local source to ask, which counts as
/// allowed).
pub fn clone_pack_filter_active(args: &Args, source_allows_filter: Option<bool>) -> (r: bool)
    ensures
        r == (filter_spec_of(views(args.filter@)) is Some && match source_allows_filter {
            Some(b) => b,
            None => true,
        }),
{
    if clone_filter_spec(args).is_none() {
        return false;
    }
    match source_allows_filter {
        Some(b) => b,
        None => true,
    }
}

/// The configured initial branch: a non-empty test override first, then `init.defaultBranch`
/// unless it is `none`.
pub fn default_branch_from_config(env_override: Option<&str>, config_value: Option<&str>) -> (r: Option<String>)
    ensures
        opt_view(r) == match env_override {
            Some(e) => if e@.len() > 0 {
                Some(e@)
            } else {
                match config_value {
                    Some(c) => if c@ == "none"@ { None } else { Some(c@) },
                    None => None,
                }
            },
            None => match config_value {
                Some(c) => if c@ == "none"@ { None } else { Some(c@) },
                None => None,
            },
        },
{
    match env_override {
        Some(e) => {
            let ev = chars_of(e);
            if ev.len() > 0 {
                return Some(e.to_owned());
            }
        },
        None => {},
    }
    match config_value {
        Some(c) => {
            let cv = chars_of(c);
            if eq_lit(&cv, "none") {
                None
            } else {
                Some(c.to_owned())
            }
        },
        None => None,
    }
}

/// The branch `HEAD` points to when nothing else says: the configured one, else `master`.
pub fn default_head_branch_fallback(configured: Option<String>) -> (r: String)
    ensures
        r@ == match configured {
            Some(b) => b@,
            None => "master"@,
        },
{
    match configured {
        Some(b) => b,
        None => "master".to_owned(),
    }
}

/// The remote's name: `--origin` (refused when not a valid remote name, as
/// `origin_is_valid` tells), else a `-c clone.defaultRemoteName=`, else the configured
/// default, else `origin`.
pub fn resolve_remote_name(args: &Args, origin_is_valid: bool, config_default: Option<&str>) -> (r: Result<String, String>)
    ensures
        match args.origin {
            Some(o) => if origin_is_valid {
                r matches Ok(n) && n@ == o@
            } else {
                r matches Err(e) && e@ == "'"@ + o@ + "' is not a valid remote name"@
            },
            None => r matches Ok(n) && n@ == match default_remote_from(views(args.config@), 0) {
                Some(d) => d,
                None => match config_default {
                    Some(c) => c@,
                    None => "origin"@,
                },
            },
        },
{
    match &args.origin {
        Some(o) => {
            if !origin_is_valid {
                let mut e = chars_of("'");
                let ov = chars_of(o.as_str());
                push_all(&mut e, &ov);
                let tail = chars_of("' is not a valid remote name");
                push_all(&mut e, &tail);
                assert(e@ =~= "'"@ + o@ + "' is not a valid remote name"@);
                return Err(string_all(&e));
            }
            return Ok(o.clone());
        },
        None => {},
    }
    match clone_default_remote_from_c_flags(&args.config) {
        Some(n) => Ok(n),
        None => match config_default {
            Some(c) => Ok(c.to_owned()),
            None => Ok("origin".to_owned()),
        },
    }
}

/// What to do about `refs/remotes/<remote>/HEAD` after a clone.
pub enum TrackingHeadPlan {
    /// Make the symbolic ref `name` point at `target`.
    Symref { name: String, target: String },
    /// Leave it alone.
    Skip,
    /// Guess the branch from the detached commit `oid`, then point the ref there.
    GuessFrom { oid: String },
}

pub open spec fn origin_head_ref(remote: Seq<char>) -> Seq<char> {
    "refs/remotes/"@ + remote + "/HEAD"@
}

pub open spec fn tracking_ref(remote: Seq<char>, branch: Seq<char>) -> Seq<char> {
    "refs/remotes/"@ + remote + "/"@ + branch
}

/// The plan for `refs/remotes/<remote>/HEAD`: the source's `HEAD` symref to
/// `refs/heads/<branch>` gives `<remote>/<branch>` when the source has that branch (else
/// nothing); without such a symref, a detached source `HEAD` is used to guess the branch.
/// `source_has_branch` tells whether the source has the ref the symref names.
pub fn remote_tracking_head_plan(
    remote_name: &str,
    symref: Option<&str>,
    source_has_branch: bool,
    detached_oid: Option<&str>,
) -> (r: TrackingHeadPlan)
    ensures
        match symref {
            Some(sr) if starts_with(sr@, "refs/heads/"@) => if source_has_branch {
                r matches TrackingHeadPlan::Symref { name, target } && name@ == origin_head_ref(remote_name@)
                    && target@ == tracking_ref(
                    remote_name@,
                    sr@.subrange("refs/heads/"@.len() as int, sr@.len() as int),
                )
            } else {
                r is Skip
            },
            _ => match detached_oid {
                Some(o) => r matches TrackingHeadPlan::GuessFrom { oid } && oid@ == o@,
                None => r is Skip,
            },
        },
{
    let rv = chars_of(remote_name);
    match symref {
        Some(sr) => {
            let sv = chars_of(sr);
            let heads = chars_of("refs/heads/");
            if has_prefix(&sv, &heads) {
                if !source_has_branch {
                    return TrackingHeadPlan::Skip;
                }
                let mut name = chars_of("refs/remotes/");
                push_all(&mut name, &rv);
                let tail = chars_of("/HEAD");
                push_all(&mut name, &tail);
                assert(name@ =~= origin_head_ref(remote_name@));
                let mut target = chars_of("refs/remotes/");
                push_all(&mut target, &rv);
                let slash = chars_of("/");
                push_all(&mut target, &slash);
                let n = sv.len();
                push_range(&mut target, &sv, heads.len(), n);
                assert(target@ =~= tracking_ref(remote_name@, sr@.subrange("refs/heads/"@.len() as int, sr@.len() as int)));
                return TrackingHeadPlan::Symref { name: string_all(&name), target: string_all(&target) };
            }
        },
        None => {},
    }
    match detached_oid {
        Some(o) => TrackingHeadPlan::GuessFrom { oid: o.to_owned() },
        None => TrackingHeadPlan::Skip,
    }
}

proof fn lemma_decode_plain(s: Seq<u8>, i: int, out: Seq<u8>)
    requires
        0 <= i <= s.len(),
        !s.contains(37u8),
    ensures
        percent_decode_from(s, i, out) == Some(out + s.subrange(i, s.len() as int)),
    decreases s.len() - i,
{
    if i < s.len() {
        assert(s[i] != 37u8) by {
            if s[i] == 37u8 {
                assert(s.contains(37u8));
            }
        }
        lemma_decode_plain(s, i + 1, out.push(s[i]));
        assert(out.push(s[i]) + s.subrange(i + 1, s.len() as int) =~= out + s.subrange(i, s.len() as int));
    } else {
        assert(out + s.subrange(i, s.len() as int) =~= out);
    }
}

/// A path whose bytes hold no `%` decodes to its own bytes, and so to the path itself.
pub proof fn law_percent_decode_plain(s: Seq<char>)
    requires
        !vstd::utf8::encode_utf8(s).contains(37u8),
    ensures
        percent_decode_from(vstd::utf8::encode_utf8(s), 0, Seq::empty()) == Some(vstd::utf8::encode_utf8(s)),
        url_path_text(s) == Some(s),
{
    let b = vstd::utf8::encode_utf8(s);
    lemma_decode_plain(b, 0, Seq::empty());
    assert(Seq::<u8>::empty() + b.subrange(0, b.len() as int) =~= b);
    vstd::utf8::encode_utf8_valid_utf8(s);
    vstd::utf8::encode_utf8_decode_utf8(s);
}

// ----- option checks made before the source is looked at --------------------------------

/// `--mirror` implies `--bare`, and `--no-single-branch` clears `--single-branch`.
pub open spec fn normalized_clone_args(a: Args) -> Args {
    Args { bare: a.bare || a.mirror, single_branch: a.single_branch && !a.no_single_branch, ..a }
}

/// The first error among the checks of options that cannot be combined. `protocol_v2` says
/// whether the client speaks protocol version 2 or later (server options need it).
pub open spec fn clone_option_error(a: Args, protocol_v2: bool) -> Option<Seq<char>> {
    let bare = a.bare || a.mirror;
    let repo = a.repository@;
    if a.ipv4 && a.ipv6 {
        Some("options '-4' and '-6' cannot be used together"@)
    } else if a.server_options.len() > 0 && !protocol_v2 {
        Some("server options require protocol version 2 or later\nsee protocol.version in 'git help config'"@)
    } else if a.single_branch && a.no_single_branch {
        Some("options '--single-branch' and '--no-single-branch' cannot be used together"@)
    } else if a.bundle_uri is Some && (a.depth is Some || a.shallow_since is Some || a.shallow_exclude.len()
        > 0) {
        Some("options '--bundle-uri' and '--depth/--shallow-since/--shallow-exclude' cannot be used together"@)
    } else if a.revision is Some && a.branch is Some {
        Some("--revision and --branch are mutually exclusive"@)
    } else if a.revision is Some && a.mirror {
        Some("--revision and --mirror are mutually exclusive"@)
    } else if a.reference.len() > 0 && a.reference_if_able.len() > 0 && a.recurse_submodules {
        Some("clone --recursive is not compatible with both --reference and --reference-if-able"@)
    } else if a.separate_git_dir is Some && bare {
        Some("options '--bare' and '--separate-git-dir' cannot be used together"@)
    } else if a.separate_git_dir is Some && a.mirror {
        Some("--separate-git-dir and --mirror are incompatible"@)
    } else if a.separate_git_dir is Some && (starts_with(repo, "git://"@) || starts_with(repo, "http://"@)
        || starts_with(repo, "https://"@)) {
        Some("--separate-git-dir is only supported for local repository clones"@)
    } else {
        None
    }
}

/// Applies `--mirror` (a bare clone) and `--no-single-branch`, and gives the first error of
/// the options that cannot be combined, if any.
pub fn prepare_clone_args(args: &mut Args, protocol_v2: bool) -> (r: Option<String>)
    ensures
        *final(args) == normalized_clone_args(*old(args)),
        opt_view(r) == clone_option_error(*old(args), protocol_v2),
{
    let err = clone_option_error_exec(args, protocol_v2);
    args.bare = args.bare || args.mirror;
    args.single_branch = args.single_branch && !args.no_single_branch;
    err
}

fn clone_option_error_exec(a: &Args, protocol_v2: bool) -> (r: Option<String>)
    ensures
        opt_view(r) == clone_option_error(*a, protocol_v2),
{
    let bare = a.bare || a.mirror;
    if a.ipv4 && a.ipv6 {
        Some("options '-4' and '-6' cannot be used together".to_owned())
    } else if a.server_options.len() > 0 && !protocol_v2 {
        Some("server options require protocol version 2 or later\nsee protocol.version in 'git help config'".to_owned())
    } else if a.single_branch && a.no_single_branch {
        Some("options '--single-branch' and '--no-single-branch' cannot be used together".to_owned())
    } else if a.bundle_uri.is_some() && (a.depth.is_some() || a.shallow_since.is_some() || a.shallow_exclude.len() > 0) {
        Some("options '--bundle-uri' and '--depth/--shallow-since/--shallow-exclude' cannot be used together".to_owned())
    } else if a.revision.is_some() && a.branch.is_some() {
        Some("--revision and --branch are mutually exclusive".to_owned())
    } else if a.revision.is_some() && a.mirror {
        Some("--revision and --mirror are mutually exclusive".to_owned())
    } else if a.reference.len() > 0 && a.reference_if_able.len() > 0 && a.recurse_submodules {
        Some("clone --recursive is not compatible with both --reference and --reference-if-able".to_owned())
    } else if a.separate_git_dir.is_some() && bare {
        Some("options '--bare' and '--separate-git-dir' cannot be used together".to_owned())
    } else if a.separate_git_dir.is_some() && a.mirror {
        Some("--separate-git-dir and --mirror are incompatible".to_owned())
    } else if a.separate_git_dir.is_some() && network_url(a.repository.as_str()) {
        Some("--separate-git-dir is only supported for local repository clones".to_owned())
    } else {
        None
    }
}

/// The repository starts with `git://`, `http://` or `https://`.
fn network_url(repo: &str) -> (r: bool)
    ensures
        r == (starts_with(repo@, "git://"@) || starts_with(repo@, "http://"@) || starts_with(repo@, "https://"@)),
{
    let v = chars_of(repo);
    let g = chars_of("git://");
    let h = chars_of("http://");
    let hs = chars_of("https://");
    has_prefix(&v, &g) || has_prefix(&v, &h) || has_prefix(&v, &hs)
}

/// A bundle URI that holds a line break, a carriage return or a space cannot be used.
pub open spec fn bundle_uri_malformed(uri: Seq<char>) -> bool {
    uri.contains('\n') || uri.contains('\r') || uri.contains(' ')
}

/// The error that an HTTP clone reports, before anything else, for a malformed
/// `--bundle-uri`; `None` when the URI can be used.
pub fn bundle_uri_error(bundle_uri: &str) -> (r: Option<String>)
    ensures
        (match r {
            Some(m) => bundle_uri_malformed(bundle_uri@) && m@ == "error: bundle-uri: URI is malformed: "@
                + bundle_uri@,
            None => !bundle_uri_malformed(bundle_uri@),
        }),
{
    let v = chars_of(bundle_uri);
    if crate::text::occurs_somewhere(&v, '\n') || crate::text::occurs_somewhere(&v, '\r')
        || crate::text::occurs_somewhere(&v, ' ') {
        let mut out = chars_of("error: bundle-uri: URI is malformed: ");
        let ghost head = out@;
        push_all(&mut out, &v);
        assert(out@ =~= head + bundle_uri@);
        Some(string_all(&out))
    } else {
        None
    }
}

// ----- server options --------------------------------------------------------------------

/// `str::split(c)`: the pieces of `s` between the occurrences of `c` (always at least one).
pub open spec fn split_char(s: Seq<char>, c: char) -> Seq<Seq<char>>
    decreases s.len(),
{
    let i = pos_of(s, c) as int;
    proof {
        lemma_pos_of(s, c);
    }
    if i >= s.len() {
        seq![s]
    } else {
        seq![s.take(i)] + split_char(s.subrange(i + 1, s.len() as int), c)
    }
}

/// The pieces of `v` between the occurrences of `c`, as ranges of `v`.
fn split_char_ranges(v: &Vec<char>, c: char) -> (r: Vec<(usize, usize)>)
    ensures
        r@.len() == split_char(v@, c).len(),
        forall|k: int|
            #![trigger r@[k]]
            0 <= k < r@.len() ==> r@[k].0 <= r@[k].1 <= v@.len() && v@.subrange(r@[k].0 as int, r@[k].1 as int)
                == split_char(v@, c)[k],
{
    let n = v.len();
    let mut r: Vec<(usize, usize)> = Vec::new();
    let mut pos: usize = 0;
    let ghost mut done: Seq<Seq<char>> = Seq::empty();
    assert(v@.subrange(0, n as int) =~= v@);
    loop
        invariant_except_break
            split_char(v@, c) == done + split_char(v@.subrange(pos as int, n as int), c),
        invariant
            n == v@.len(),
            pos <= n,
            r@.len() == done.len(),
            forall|k: int|
                #![trigger r@[k]]
                0 <= k < r@.len() ==> r@[k].0 <= r@[k].1 <= v@.len() && v@.subrange(
                    r@[k].0 as int,
                    r@[k].1 as int,
                ) == done[k],
        ensures
            r@.len() == split_char(v@, c).len(),
            forall|k: int|
                #![trigger r@[k]]
                0 <= k < r@.len() ==> r@[k].0 <= r@[k].1 <= v@.len() && v@.subrange(
                    r@[k].0 as int,
                    r@[k].1 as int,
                ) == split_char(v@, c)[k],
        decreases n - pos,
    {
        let ghost rest = v@.subrange(pos as int, n as int);
        let mut j = pos;
        while j < n && v[j] != c
            invariant
                pos <= j <= n,
                n == v@.len(),
                forall|q: int| pos <= q < j ==> v@[q] != c,
            decreases n - j,
        {
            j = j + 1;
        }
        proof {
            crate::text::lemma_pos_of_eq(rest, c, j - pos);
        }
        if j == n {
            r.push((pos, n));
            proof {
                assert(split_char(rest, c) == seq![rest]);
                done = done.push(rest);
                assert(split_char(v@, c) =~= done);
            }
            break;
        } else {
            proof {
                assert(rest.subrange(j - pos + 1, rest.len() as int) =~= v@.subrange(j + 1, n as int));
                assert(rest.take(j - pos) =~= v@.subrange(pos as int, j as int));
                done = done.push(rest.take(j - pos));
                assert(split_char(v@, c) =~= done + split_char(v@.subrange(j + 1, n as int), c));
            }
            r.push((pos, j));
            pos = j + 1;
        }
    }
    r
}

/// Keys compared as `str::eq_ignore_ascii_case` does.
pub open spec fn same_key(a: Seq<char>, b: Seq<char>) -> bool {
    lower(a) == lower(b)
}

/// A `key=value` setting of the server option: an empty value clears the list.
pub open spec fn server_option_set(st: (bool, Seq<Seq<char>>), value: Seq<char>) -> (bool, Seq<Seq<char>>) {
    (true, if value.len() == 0 { Seq::empty() } else { st.1.push(value) })
}

/// One quoted token of `GIT_CONFIG_PARAMETERS`; `None` for the key without a value.
pub open spec fn env_token_step(raw: Seq<char>, want: Seq<char>, st: (bool, Seq<Seq<char>>)) -> Option<
    (bool, Seq<Seq<char>>),
> {
    let token = trim(raw);
    if token.len() == 0 {
        Some(st)
    } else {
        match find(token, "="@) {
            Some(q) => if same_key(trim(token.take(q)), want) {
                Some(server_option_set(st, token.subrange(q + 1, token.len() as int)))
            } else {
                Some(st)
            },
            None => if same_key(token, want) {
                None
            } else {
                Some(st)
            },
        }
    }
}

/// One `-c key=value` of the command line; `None` for the key without a value.
pub open spec fn config_entry_step(entry: Seq<char>, want: Seq<char>, st: (bool, Seq<Seq<char>>)) -> Option<
    (bool, Seq<Seq<char>>),
> {
    match find(entry, "="@) {
        Some(q) => if same_key(trim(entry.take(q)), want) {
            Some(server_option_set(st, entry.subrange(q + 1, entry.len() as int)))
        } else {
            Some(st)
        },
        None => if same_key(trim(entry), want) {
            None
        } else {
            Some(st)
        },
    }
}

pub open spec fn env_fold(ts: Seq<Seq<char>>, want: Seq<char>, st: (bool, Seq<Seq<char>>)) -> Option<
    (bool, Seq<Seq<char>>),
>
    decreases ts.len(),
{
    if ts.len() == 0 {
        Some(st)
    } else {
        match env_fold(ts.drop_last(), want, st) {
            Some(s1) => env_token_step(ts.last(), want, s1),
            None => None,
        }
    }
}

pub open spec fn config_fold(es: Seq<Seq<char>>, want: Seq<char>, st: (bool, Seq<Seq<char>>)) -> Option<
    (bool, Seq<Seq<char>>),
>
    decreases es.len(),
{
    if es.len() == 0 {
        Some(st)
    } else {
        match config_fold(es.drop_last(), want, st) {
            Some(s1) => config_entry_step(es.last(), want, s1),
            None => None,
        }
    }
}

/// The server options a clone sends: `--server-option` values if any; else none below protocol
/// version 2; else the `remote.<name>.serveroption` settings of `GIT_CONFIG_PARAMETERS`
/// (`env`) and then of `-c`, an empty value clearing those before it. A setting without a
/// value is an error.
pub open spec fn server_options_spec(a: Args, remote: Seq<char>, protocol_v2: bool, env: Option<Seq<char>>) -> Result<
    Seq<Seq<char>>,
    Seq<char>,
> {
    let want = "remote."@ + remote + ".serveroption"@;
    let missing = "error: missing value for '"@ + want + "'"@;
    if a.server_options.len() > 0 {
        Ok(views(a.server_options@))
    } else if !protocol_v2 {
        Ok(Seq::empty())
    } else {
        let s0 = (false, Seq::<Seq<char>>::empty());
        let s1 = match env {
            Some(p) => env_fold(split_char(p, '\''), want, s0),
            None => Some(s0),
        };
        match s1 {
            None => Err(missing),
            Some(s1) => match config_fold(views(a.config@), want, s1) {
                None => Err(missing),
                Some(s2) => Ok(if s2.0 { s2.1 } else { Seq::empty() }),
            },
        }
    }
}

/// `lower(v[lo..hi]) == lower(w)`.
fn same_key_range(v: &Vec<char>, lo: usize, hi: usize, w: &Vec<char>) -> (r: bool)
    requires
        lo <= hi <= v@.len(),
    ensures
        r == same_key(v@.subrange(lo as int, hi as int), w@),
{
    let a = lowercase_range(v, lo, hi);
    let n = w.len();
    let b = lowercase_range(w, 0, n);
    assert(w@.subrange(0, n as int) =~= w@);
    seq_eq(&a, &b)
}

/// Applies one `key=value` text (a trimmed environment token or a `-c` entry) to the state.
fn apply_server_option_text(
    v: &Vec<char>,
    lo: usize,
    hi: usize,
    want: &Vec<char>,
    saw: &mut bool,
    out: &mut Vec<String>,
) -> (ok: bool)
    requires
        lo <= hi <= v@.len(),
    ensures
        ({
            let t = v@.subrange(lo as int, hi as int);
            let st = (*old(saw), views(old(out)@));
            let next = match find(t, "="@) {
                Some(q) => if same_key(trim(t.take(q)), want@) {
                    Some(server_option_set(st, t.subrange(q + 1, t.len() as int)))
                } else {
                    Some(st)
                },
                None => if same_key(trim(t), want@) {
                    None
                } else {
                    Some(st)
                },
            };
            match next {
                Some(s) => ok && s == (*final(saw), views(final(out)@)),
                None => !ok,
            }
        }),
{
    let ghost t = v@.subrange(lo as int, hi as int);
    let mut tv: Vec<char> = Vec::new();
    push_range(&mut tv, v, lo, hi);
    let eq = chars_of("=");
    let n = tv.len();
    match find_at(&tv, &eq, 0) {
        Some(q) => {
            proof {
                lemma_find_from_props(tv@, eq@, 0);
                reveal_strlit("=");
            }
            let (a, b) = trim_bounds(&tv, 0, q);
            assert(tv@.subrange(0, q as int) =~= t.take(q as int));
            if same_key_range(&tv, a, b, want) {
                let value = string_of(&tv, q + 1, n);
                *saw = true;
                if value.as_str().unicode_len() == 0 {
                    out.clear();
                    assert(views(out@) =~= Seq::<Seq<char>>::empty());
                } else {
                    let ghost before = out@;
                    out.push(value);
                    proof {
                        lemma_views_push(before, value);
                    }
                }
            }
            true
        },
        None => {
            let (a, b) = trim_bounds(&tv, 0, n);
            assert(tv@.subrange(0, n as int) =~= t);
            !same_key_range(&tv, a, b, want)
        },
    }
}

/// The server options that a clone sends (see `server_options_spec`). `protocol_v2` says
/// whether the client speaks protocol version 2 or later, and `config_parameters` is the
/// value of `GIT_CONFIG_PARAMETERS`, when set.
#[verifier::spinoff_prover]
pub fn effective_clone_server_options(
    args: &Args,
    remote_name: &str,
    protocol_v2: bool,
    config_parameters: Option<&str>,
) -> (r: Result<Vec<String>, String>)
    ensures
        match r {
            Ok(v) => server_options_spec(*args, remote_name@, protocol_v2, opt_str(config_parameters))
                == Ok::<Seq<Seq<char>>, Seq<char>>(views(v@)),
            Err(e) => server_options_spec(*args, remote_name@, protocol_v2, opt_str(config_parameters))
                == Err::<Seq<Seq<char>>, Seq<char>>(e@),
        },
{
    if args.server_options.len() > 0 {
        return Ok(args.server_options.clone());
    }
    if !protocol_v2 {
        let empty: Vec<String> = Vec::new();
        assert(views(empty@) =~= Seq::<Seq<char>>::empty());
        return Ok(empty);
    }
    let mut want = chars_of("remote.");
    let rn = chars_of(remote_name);
    push_all(&mut want, &rn);
    let suffix = chars_of(".serveroption");
    push_all(&mut want, &suffix);
    let ghost wantv = "remote."@ + remote_name@ + ".serveroption"@;
    assert(want@ =~= wantv);
    let mut saw = false;
    let mut out: Vec<String> = Vec::new();
    let mut ok = true;
    assert(views(out@) =~= Seq::<Seq<char>>::empty());
    if let Some(params) = config_parameters {
        let pv = chars_of(params);
        let toks = split_char_ranges(&pv, '\'');
        let ghost ts = split_char(pv@, '\'');
        let mut i: usize = 0;
        assert(ts.take(0) =~= Seq::<Seq<char>>::empty());
        while i < toks.len()
            invariant_except_break
                env_fold(ts.take(i as int), wantv, (false, Seq::empty())) == Some((saw, views(out@))),
                i == ts.len() ==> env_fold(ts, wantv, (false, Seq::empty())) == Some((saw, views(out@))),
                ok,
            invariant
                ts == split_char(pv@, '\''),
                toks@.len() == ts.len(),
                forall|k: int|
                    #![trigger toks@[k]]
                    0 <= k < toks@.len() ==> toks@[k].0 <= toks@[k].1 <= pv@.len() && pv@.subrange(
                        toks@[k].0 as int,
                        toks@[k].1 as int,
                    ) == ts[k],
                i <= ts.len(),
                want@ == wantv,
            ensures
                ok ==> env_fold(ts, wantv, (false, Seq::empty())) == Some((saw, views(out@))),
                !ok ==> env_fold(ts, wantv, (false, Seq::empty())) is None,
            decreases ts.len() - i,
        {
            let (lo, hi) = toks[i];
            let (a, b) = trim_bounds(&pv, lo, hi);
            proof {
                assert(ts.take(i + 1).drop_last() =~= ts.take(i as int));
                assert(ts.take(i + 1).last() == ts[i as int]);
            }
            proof {
                crate::text::lemma_trim_idempotent(ts[i as int]);
            }
            if a < b {
                assert(pv@.subrange(a as int, b as int) == trim(ts[i as int]));
                let good = apply_server_option_text(&pv, a, b, &want, &mut saw, &mut out);
                if !good {
                    ok = false;
                    proof {
                        lemma_env_fold_none(ts, wantv, (false, Seq::empty()), i + 1);
                    }
                    break;
                }
            } else {
                assert(trim(ts[i as int]).len() == 0);
            }
            i = i + 1;
            proof {
                if i == ts.len() {
                    assert(ts.take(i as int) =~= ts);
                }
            }
        }
        if !ok {
            let mut msg = chars_of("error: missing value for '");
            push_all(&mut msg, &want);
            let q = chars_of("'");
            push_all(&mut msg, &q);
            return Err(string_all(&msg));
        }
        assert(ts.take(ts.len() as int) =~= ts);
    }
    let ghost s1 = (saw, views(out@));
    let ghost es = views(args.config@);
    let mut j: usize = 0;
    assert(es.take(0) =~= Seq::<Seq<char>>::empty());
    while j < args.config.len()
        invariant
            es == views(args.config@),
            j <= es.len(),
            want@ == wantv,
            wantv == "remote."@ + remote_name@ + ".serveroption"@,
            args.server_options.len() == 0,
            protocol_v2,
            config_fold(es.take(j as int), wantv, s1) == Some((saw, views(out@))),
            match opt_str(config_parameters) {
                Some(p) => env_fold(split_char(p, '\''), wantv, (false, Seq::<Seq<char>>::empty())),
                None => Some((false, Seq::<Seq<char>>::empty())),
            } == Some(s1),
        decreases es.len() - j,
    {
        let ev = chars_of(args.config[j].as_str());
        let en = ev.len();
        proof {
            assert(es.take(j + 1).drop_last() =~= es.take(j as int));
            assert(es.take(j + 1).last() == ev@);
            assert(ev@.subrange(0, en as int) =~= ev@);
        }
        let good = apply_server_option_text(&ev, 0, en, &want, &mut saw, &mut out);
        if !good {
            proof {
                lemma_config_fold_none(es, wantv, s1, j + 1);
            }
            let mut msg = chars_of("error: missing value for '");
            push_all(&mut msg, &want);
            let q = chars_of("'");
            push_all(&mut msg, &q);
            assert(msg@ =~= "error: missing value for '"@ + wantv + "'"@);
            return Err(string_all(&msg));
        }
        j = j + 1;
    }
    assert(es.take(es.len() as int) =~= es);
    if saw {
        Ok(out)
    } else {
        let empty: Vec<String> = Vec::new();
        assert(views(empty@) =~= Seq::<Seq<char>>::empty());
        Ok(empty)
    }
}

proof fn lemma_env_fold_none(ts: Seq<Seq<char>>, want: Seq<char>, st: (bool, Seq<Seq<char>>), k: int)
    requires
        0 <= k <= ts.len(),
        env_fold(ts.take(k), want, st) is None,
    ensures
        env_fold(ts, want, st) is None,
    decreases ts.len() - k,
{
    if k == ts.len() {
        assert(ts.take(k) =~= ts);
    } else {
        assert(ts.take(k + 1).drop_last() =~= ts.take(k));
        lemma_env_fold_none(ts, want, st, k + 1);
    }
}

proof fn lemma_config_fold_none(es: Seq<Seq<char>>, want: Seq<char>, st: (bool, Seq<Seq<char>>), k: int)
    requires
        0 <= k <= es.len(),
        config_fold(es.take(k), want, st) is None,
    ensures
        config_fold(es, want, st) is None,
    decreases es.len() - k,
{
    if k == es.len() {
        assert(es.take(k) =~= es);
    } else {
        assert(es.take(k + 1).drop_last() =~= es.take(k));
        lemma_config_fold_none(es, want, st, k + 1);
    }
}

/// The view of an optional string slice.
pub open spec fn opt_str(o: Option<&str>) -> Option<Seq<char>> {
    match o {
        Some(s) => Some(s@),
        None => None,
    }
}

// ----- the source repository's HEAD, and warnings for local clones -----------------------

/// A source repository's `HEAD` file, trimmed: `ref: <name>` gives the symbolic ref (trimmed),
/// forty hex digits the detached object name; anything else neither.
pub open spec fn head_info_spec(content: Seq<char>) -> (Option<Seq<char>>, Option<Seq<char>>) {
    let c = trim(content);
    if starts_with(c, "ref: "@) {
        (Some(trim(c.subrange(5, c.len() as int))), None)
    } else if c.len() == 40 && all_hex(c) {
        (None, Some(c))
    } else {
        (None, None)
    }
}

/// Reads the text of a source repository's `HEAD` (see `head_info_spec`).
pub fn source_head_info(content: &str) -> (r: (Option<String>, Option<String>))
    ensures
        (opt_view(r.0), opt_view(r.1)) == head_info_spec(content@),
{
    let v = chars_of(content);
    let (a, b) = trim_bounds(&v, 0, v.len());
    assert(v@.subrange(0, v@.len() as int) =~= v@);
    let mut c: Vec<char> = Vec::new();
    push_range(&mut c, &v, a, b);
    assert(c@ =~= trim(content@));
    let refp = chars_of("ref: ");
    proof {
        reveal_strlit("ref: ");
    }
    let n = c.len();
    if has_prefix(&c, &refp) {
        let (x, y) = trim_bounds(&c, 5, n);
        return (Some(string_of(&c, x, y)), None);
    }
    if n == 40 {
        let mut i: usize = 0;
        while i < n
            invariant
                n == c@.len(),
                n == 40,
                c@ == trim(content@),
                !starts_with(c@, "ref: "@),
                i <= n,
                forall|j: int| 0 <= j < i ==> #[trigger] is_hex_digit(c@[j]),
            decreases n - i,
        {
            if !char_is_hex_digit(c[i]) {
                assert(!all_hex(c@));
                return (None, None);
            }
            i = i + 1;
        }
        return (None, Some(string_all(&c)));
    }
    (None, None)
}

/// The warnings that a local clone gives for shallow options it cannot honour: none with
/// `--no-local` or for a `file://` source; otherwise one for `--shallow-since` and one for
/// `--shallow-exclude`.
pub open spec fn shallow_warnings_spec(repo_path: Seq<char>, a: Args) -> Seq<Seq<char>> {
    if a.no_local || starts_with(repo_path, "file://"@) {
        Seq::empty()
    } else {
        (if a.shallow_since is Some {
            seq!["warning: --shallow-since is ignored in local clones; use file:// instead."@]
        } else {
            Seq::empty()
        }) + (if a.shallow_exclude.len() > 0 {
            seq!["warning: --shallow-exclude is ignored in local clones; use file:// instead."@]
        } else {
            Seq::empty()
        })
    }
}

/// The warnings to print for shallow options that a local clone of `repo_path` ignores.
pub fn shallow_options_ignored_warnings(repo_path: &str, args: &Args) -> (r: Vec<String>)
    ensures
        views(r@) == shallow_warnings_spec(repo_path@, *args),
{
    let mut out: Vec<String> = Vec::new();
    let v = chars_of(repo_path);
    let f = chars_of("file://");
    if args.no_local || has_prefix(&v, &f) {
        assert(views(out@) =~= Seq::<Seq<char>>::empty());
        return out;
    }
    if args.shallow_since.is_some() {
        out.push("warning: --shallow-since is ignored in local clones; use file:// instead.".to_owned());
    }
    let ghost mid = out@;
    if args.shallow_exclude.len() > 0 {
        out.push("warning: --shallow-exclude is ignored in local clones; use file:// instead.".to_owned());
    }
    assert(views(out@) =~= shallow_warnings_spec(repo_path@, *args));
    out
}

// ----- the default branch of a remote ---------------------------------------------------

/// `name` without `refs/heads/`, when it starts with it.
pub open spec fn branch_of_ref(name: Seq<char>) -> Option<Seq<char>> {
    if starts_with(name, "refs/heads/"@) {
        Some(name.subrange(11, name.len() as int))
    } else {
        None
    }
}

/// The first advertised head (from `i` on) whose object is `oid`.
pub open spec fn first_head_with_oid(heads: Seq<(Seq<char>, Seq<char>)>, oid: Seq<char>, i: int) -> Option<int>
    decreases heads.len() - i,
{
    if i < 0 || i >= heads.len() {
        None
    } else if heads[i].1 == oid {
        Some(i)
    } else {
        first_head_with_oid(heads, oid, i + 1)
    }
}

/// The first advertised name (from `i` on) under `refs/heads/`, without that prefix.
pub open spec fn first_branch(heads: Seq<(Seq<char>, Seq<char>)>, i: int) -> Option<Seq<char>>
    decreases heads.len() - i,
{
    if i < 0 || i >= heads.len() {
        None
    } else if branch_of_ref(heads[i].0) is Some {
        branch_of_ref(heads[i].0)
    } else {
        first_branch(heads, i + 1)
    }
}

/// The branch a clone checks out from what the remote advertised: the branch `HEAD` points
/// to; else, for a detached `HEAD`, the first head on the same object (when it is a branch);
/// else the first advertised branch.
pub open spec fn advertised_default_branch(
    heads: Seq<(Seq<char>, Seq<char>)>,
    head_symref: Option<Seq<char>>,
    head_oid: Option<Seq<char>>,
) -> Option<Seq<char>> {
    if head_symref matches Some(sr) && branch_of_ref(sr) is Some {
        branch_of_ref(head_symref->0)
    } else if head_oid matches Some(oid) && first_head_with_oid(heads, oid, 0) is Some {
        branch_of_ref(heads[first_head_with_oid(heads, head_oid->0, 0)->0].0)
    } else {
        first_branch(heads, 0)
    }
}

pub open spec fn head_views(v: Seq<(String, String)>) -> Seq<(Seq<char>, Seq<char>)> {
    v.map_values(|p: (String, String)| (p.0@, p.1@))
}

fn branch_of_ref_exec(name: &str) -> (r: Option<String>)
    ensures
        opt_view(r) == branch_of_ref(name@),
{
    let v = chars_of(name);
    let p = chars_of("refs/heads/");
    proof {
        reveal_strlit("refs/heads/");
    }
    if has_prefix(&v, &p) {
        let n = v.len();
        Some(string_of(&v, 11, n))
    } else {
        None
    }
}

/// The branch to check out after cloning from an upload-pack advertisement (see
/// `advertised_default_branch`); object names are given in hex.
pub fn default_branch_from_upload_pack_advertisement(
    remote_heads: &[(String, String)],
    head_symref: Option<&str>,
    head_oid: Option<&str>,
) -> (r: Option<String>)
    ensures
        opt_view(r) == advertised_default_branch(head_views(remote_heads@), opt_str(head_symref), opt_str(head_oid)),
{
    let ghost hs = head_views(remote_heads@);
    if let Some(sym) = head_symref {
        if let Some(b) = branch_of_ref_exec(sym) {
            return Some(b);
        }
    }
    if let Some(oid) = head_oid {
        let ov = chars_of(oid);
        let mut i: usize = 0;
        while i < remote_heads.len()
            invariant
                hs == head_views(remote_heads@),
                ov@ == oid@,
                opt_str(head_oid) == Some(oid@),
                !(opt_str(head_symref) matches Some(sr) && branch_of_ref(sr) is Some),
                i <= remote_heads@.len(),
                first_head_with_oid(hs, oid@, 0) == first_head_with_oid(hs, oid@, i as int),
            decreases remote_heads@.len() - i,
        {
            let hv = chars_of(remote_heads[i].1.as_str());
            assert(hs[i as int] == (remote_heads@[i as int].0@, remote_heads@[i as int].1@));
            if crate::text::seq_eq(&hv, &ov) {
                return branch_of_ref_exec(remote_heads[i].0.as_str());
            }
            i = i + 1;
        }
    }
    let mut j: usize = 0;
    while j < remote_heads.len()
        invariant
            hs == head_views(remote_heads@),
            !(opt_str(head_symref) matches Some(sr) && branch_of_ref(sr) is Some),
            !(opt_str(head_oid) matches Some(o) && first_head_with_oid(hs, o, 0) is Some),
            j <= remote_heads@.len(),
            first_branch(hs, 0) == first_branch(hs, j as int),
        decreases remote_heads@.len() - j,
    {
        assert(hs[j as int] == (remote_heads@[j as int].0@, remote_heads@[j as int].1@));
        if let Some(b) = branch_of_ref_exec(remote_heads[j].0.as_str()) {
            return Some(b);
        }
        j = j + 1;
    }
    None
}

// ----- the remote-tracking branch to check out -------------------------------------------

/// The branch names among the remote's refs: the part after `refs/remotes/<remote>/`, leaving
/// out `HEAD` and names with a `/`.
pub open spec fn tracked_names(refs: Seq<Seq<char>>, prefix: Seq<char>) -> Seq<Seq<char>>
    decreases refs.len(),
{
    if refs.len() == 0 {
        Seq::empty()
    } else {
        let rest = tracked_names(refs.drop_last(), prefix);
        let r = refs.last();
        if starts_with(r, prefix) {
            let name = r.subrange(prefix.len() as int, r.len() as int);
            if name == "HEAD"@ || name.contains('/') {
                rest
            } else {
                rest.push(name)
            }
        } else {
            rest
        }
    }
}

/// The remote-tracking branch to check out: `preferred` when `refs/remotes/<remote>/<preferred>`
/// exists; else the only branch of the remote, when it has exactly one; `refs` is the listing
/// of `refs/remotes/<remote>/` (`None` when it could not be read).
pub open spec fn tracked_branch_spec(
    remote: Seq<char>,
    preferred: Seq<char>,
    preferred_exists: bool,
    refs: Option<Seq<Seq<char>>>,
) -> Option<Seq<char>> {
    if preferred_exists {
        Some(preferred)
    } else {
        match refs {
            None => None,
            Some(rs) => {
                let names = tracked_names(rs, "refs/remotes/"@ + remote + "/"@);
                if names.len() == 1 {
                    Some(names[0])
                } else {
                    None
                }
            },
        }
    }
}

pub open spec fn opt_views(o: Option<&[String]>) -> Option<Seq<Seq<char>>> {
    match o {
        Some(v) => Some(views(v@)),
        None => None,
    }
}

/// Picks the remote-tracking branch to check out (see `tracked_branch_spec`).
pub fn remote_tracked_branch_name(
    remote_name: &str,
    preferred: &str,
    preferred_exists: bool,
    refs: Option<&[String]>,
) -> (r: Option<String>)
    ensures
        opt_view(r) == tracked_branch_spec(remote_name@, preferred@, preferred_exists, opt_views(refs)),
{
    if preferred_exists {
        return Some(string_all(&chars_of(preferred)));
    }
    let rs = match refs {
        None => {
            return None;
        },
        Some(rs) => rs,
    };
    let mut prefix = chars_of("refs/remotes/");
    let rn = chars_of(remote_name);
    push_all(&mut prefix, &rn);
    prefix.push('/');
    proof {
        reveal_strlit("/");
    }
    let ghost pv = "refs/remotes/"@ + remote_name@ + "/"@;
    assert(prefix@ =~= pv);
    let head = chars_of("HEAD");
    let ghost xs = views(rs@);
    let mut names: Vec<String> = Vec::new();
    let mut i: usize = 0;
    assert(xs.take(0) =~= Seq::<Seq<char>>::empty());
    assert(views(names@) =~= Seq::<Seq<char>>::empty());
    while i < rs.len()
        invariant
            xs == views(rs@),
            prefix@ == pv,
            head@ == "HEAD"@,
            i <= xs.len(),
            views(names@) == tracked_names(xs.take(i as int), pv),
        decreases xs.len() - i,
    {
        let v = chars_of(rs[i].as_str());
        proof {
            assert(xs.take(i + 1).drop_last() =~= xs.take(i as int));
            assert(xs.take(i + 1).last() == v@);
        }
        if has_prefix(&v, &prefix) {
            let n = v.len();
            let pl = prefix.len();
            let mut name: Vec<char> = Vec::new();
            push_range(&mut name, &v, pl, n);
            let has_slash = crate::text::occurs_somewhere(&name, '/');
            if !seq_eq(&name, &head) && !has_slash {
                let ghost before = names@;
                let s = string_all(&name);
                names.push(s);
                proof {
                    lemma_views_push(before, s);
                }
            }
        }
        i = i + 1;
    }
    assert(xs.take(xs.len() as int) =~= xs);
    if names.len() == 1 {
        let s = string_all(&chars_of(names[0].as_str()));
        assert(views(names@)[0] == names@[0]@);
        Some(s)
    } else {
        None
    }
}

/// `diff.mnemonicPrefix` is on: its value, trimmed and lowercased, is `true`, `yes`, `on`, `1`
/// or empty (the key alone).
pub open spec fn mnemonic_prefix_spec(value: Option<Seq<char>>) -> bool {
    match value {
        Some(v) => {
            let t = lower(trim(v));
            t == "true"@ || t == "yes"@ || t == "on"@ || t == "1"@ || t.len() == 0
        },
        None => false,
    }
}

/// Whether `diff.mnemonicPrefix` (its value, when set) turns mnemonic diff prefixes on.
pub fn mnemonic_prefix_enabled(value: Option<&str>) -> (r: bool)
    ensures
        r == mnemonic_prefix_spec(opt_str(value)),
{
    match value {
        None => false,
        Some(v) => {
            let c = chars_of(v);
            let (a, b) = trim_bounds(&c, 0, c.len());
            assert(c@.subrange(0, c@.len() as int) =~= c@);
            let t = lowercase_range(&c, a, b);
            eq_lit(&t, "true") || eq_lit(&t, "yes") || eq_lit(&t, "on") || eq_lit(&t, "1") || t.len() == 0
        },
    }
}

// ----- reading a config file's entries ---------------------------------------------------

pub open spec fn entry_views(v: Seq<(String, Option<String>)>) -> Seq<(Seq<char>, Option<Seq<char>>)> {
    v.map_values(|e: (String, Option<String>)| (e.0@, opt_view(e.1)))
}

/// The index of the last entry (before `i`) whose key is `key`.
pub open spec fn last_entry_for(es: Seq<(Seq<char>, Option<Seq<char>>)>, key: Seq<char>, i: int) -> Option<int>
    decreases i,
{
    if i <= 0 || i > es.len() {
        None
    } else if es[i - 1].0 == key {
        Some(i - 1)
    } else {
        last_entry_for(es, key, i - 1)
    }
}

/// The value of the last entry of a config file with key `key` (`None` when there is none, or
/// when that entry has no value).
pub fn config_last_value(entries: &[(String, Option<String>)], key: &str) -> (r: Option<String>)
    ensures
        opt_view(r) == match last_entry_for(entry_views(entries@), key@, entries@.len() as int) {
            Some(i) => entry_views(entries@)[i].1,
            None => None,
        },
{
    let ghost es = entry_views(entries@);
    let kv = chars_of(key);
    let mut i: usize = entries.len();
    while i > 0
        invariant
            es == entry_views(entries@),
            kv@ == key@,
            i <= entries@.len(),
            last_entry_for(es, key@, entries@.len() as int) == last_entry_for(es, key@, i as int),
        decreases i,
    {
        let ev = chars_of(entries[i - 1].0.as_str());
        assert(es[i - 1] == (entries@[i - 1].0@, opt_view(entries@[i - 1].1)));
        if seq_eq(&ev, &kv) {
            return match &entries[i - 1].1 {
                Some(v) => Some(string_all(&chars_of(v.as_str()))),
                None => None,
            };
        }
        i = i - 1;
    }
    None
}

} // verus!
