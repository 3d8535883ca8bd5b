//! The application's settings: the text and image services, the picture
//! sizes offered, their defaults, and the layout of the settings file.
use vstd::prelude::*;
use crate::page_files::{has_suffix, strip_suffixes};
use crate::text::{
    chars_of, has_prefix, lemma_line_end, line_end, line_text_end, line_text_end_exec, next_line_end, owned, push_char,
    starts_with_at, substring,
};

verus! {

/// A header sent with every request to a service.
#[derive(Clone, Debug)]
pub struct ExtraHeader {
    pub key: String,
    pub value: String,
}

/// A text-generation service.
#[derive(Clone, Debug)]
pub struct ApiConfig {
    pub provider: String,
    pub endpoint: String,
    pub api_key: String,
    pub model: String,
    pub extra_headers: Vec<ExtraHeader>,
}

/// A picture size offered for generated pages.
#[derive(Clone, Debug)]
pub struct ImageSize {
    pub name: String,
    pub width: u32,
    pub height: u32,
}

/// An image-generation service.
#[derive(Clone, Debug)]
pub struct ImageConfig {
    pub provider: String,
    pub endpoint: String,
    pub api_key: String,
    pub model: String,
    pub extra_headers: Vec<ExtraHeader>,
}

/// All settings.
#[derive(Clone, Debug)]
pub struct AppConfig {
    pub llm: ApiConfig,
    pub img: ImageConfig,
    pub image_sizes: Vec<ImageSize>,
}

pub open spec fn size_view(s: ImageSize) -> (Seq<char>, u32, u32) {
    (s.name@, s.width, s.height)
}

/// The picture sizes offered by default.
pub open spec fn default_sizes() -> Seq<(Seq<char>, u32, u32)> {
    seq![
        ("16:9 横屏"@, 1920u32, 1072u32),
        ("9:16 竖屏"@, 1072u32, 1920u32),
        ("4:3 横向"@, 1440u32, 1072u32),
        ("3:4 纵向"@, 1072u32, 1440u32),
        ("1:1 方形"@, 1072u32, 1072u32),
    ]
}

fn size(name: &str, width: u32, height: u32) -> (r: ImageSize)
    ensures
        size_view(r) == (name@, width, height),
{
    ImageSize { name: owned(name), width, height }
}

impl Default for AppConfig {
    /// OpenAI's services (`gpt-4o` for text, `gpt-image-2` for pictures)
    /// without keys or extra headers, and five picture sizes.
    fn default() -> (r: Self)
        ensures
            r.llm.provider@ == "openai"@,
            r.llm.endpoint@ == "https://api.openai.com/v1"@,
            r.llm.api_key@ == ""@,
            r.llm.model@ == "gpt-4o"@,
            r.llm.extra_headers@.len() == 0,
            r.img.provider@ == "openai"@,
            r.img.endpoint@ == "https://api.openai.com/v1/images/generations"@,
            r.img.api_key@ == ""@,
            r.img.model@ == "gpt-image-2"@,
            r.img.extra_headers@.len() == 0,
            r.image_sizes@.map_values(|s: ImageSize| size_view(s)) == default_sizes(),
    {
        let mut sizes: Vec<ImageSize> = Vec::new();
        sizes.push(size("16:9 横屏", 1920, 1072));
        sizes.push(size("9:16 竖屏", 1072, 1920));
        sizes.push(size("4:3 横向", 1440, 1072));
        sizes.push(size("3:4 纵向", 1072, 1440));
        sizes.push(size("1:1 方形", 1072, 1072));
        proof {
            assert(sizes@.map_values(|s: ImageSize| size_view(s)) =~= default_sizes());
        }
        AppConfig {
            llm: ApiConfig {
                provider: owned("openai"),
                endpoint: owned("https://api.openai.com/v1"),
                api_key: owned(""),
                model: owned("gpt-4o"),
                extra_headers: Vec::new(),
            },
            img: ImageConfig {
                provider: owned("openai"),
                endpoint: owned("https://api.openai.com/v1/images/generations"),
                api_key: owned(""),
                model: owned("gpt-image-2"),
                extra_headers: Vec::new(),
            },
            image_sizes: sizes,
        }
    }
}


/// The lines of `s[lo..]`, each indented by two spaces and ended by a
/// newline.
pub open spec fn indented_from(s: Seq<char>, lo: int) -> Seq<char>
    decreases s.len() - lo,
{
    if lo < 0 || lo >= s.len() {
        seq![]
    } else {
        let end = line_end(s, lo);
        let line = s.subrange(lo, line_text_end(s, lo, end));
        proof {
            lemma_line_end(s, lo);
        }
        "  "@ + line + seq!['\n'] + if end < s.len() {
            indented_from(s, end + 1)
        } else {
            seq![]
        }
    }
}

/// A section of the settings file: its name, a colon, and its YAML text
/// indented under it.
pub open spec fn section_text(name: Seq<char>, yaml: Seq<char>) -> Seq<char> {
    name + ":\n"@ + indented_from(yaml, 0)
}

/// The settings file from the YAML texts of its three sections, with a
/// blank line between sections.
pub open spec fn spec_config_text(llm: Seq<char>, img: Seq<char>, sizes: Seq<char>) -> Seq<char> {
    section_text("llm"@, llm) + "\n"@ + section_text("img"@, img) + "\n"@ + section_text("image_sizes"@, sizes)
}

fn push_section(out: &mut String, name: &str, yaml: &str)
    ensures
        final(out)@ == old(out)@ + section_text(name@, yaml@),
{
    out.append(name);
    out.append(":\n");
    let s = chars_of(yaml);
    let n = s.len();
    let ghost start = out@;
    let mut pos: usize = 0;
    proof {
        reveal_strlit(":\n");
        reveal_strlit("  ");
        assert(start =~= old(out)@ + name@ + ":\n"@);
    }
    while pos < n
        invariant
            n == s@.len(),
            s@ == yaml@,
            0 <= pos <= n,
            start + indented_from(s@, 0) == out@ + indented_from(s@, pos as int),
        decreases n - pos,
    {
        let end = next_line_end(s.as_slice(), pos);
        let te = line_text_end_exec(s.as_slice(), pos, end);
        proof {
            lemma_line_end(s@, pos as int);
        }
        let ghost before = out@;
        out.append("  ");
        let line = substring(s.as_slice(), pos, te);
        out.append(line.as_str());
        push_char(out, '\n');
        let next = if end < n {
            end + 1
        } else {
            n
        };
        proof {
            let piece = "  "@ + s@.subrange(pos as int, te as int) + seq!['\n'];
            assert(out@ =~= before + piece);
            if end < n {
                assert(indented_from(s@, pos as int) =~= piece + indented_from(s@, end + 1));
            } else {
                assert(indented_from(s@, pos as int) =~= piece);
                assert(indented_from(s@, n as int) =~= Seq::<char>::empty());
            }
        }
        pos = next;
    }
    proof {
        assert(indented_from(s@, n as int) =~= Seq::<char>::empty());
        assert(out@ =~= old(out)@ + section_text(name@, yaml@));
    }
}

/// Lays out the settings file from the YAML texts of its sections.
pub fn format_config_yaml(llm_yaml: &str, img_yaml: &str, sizes_yaml: &str) -> (r: String)
    ensures
        r@ == spec_config_text(llm_yaml@, img_yaml@, sizes_yaml@),
{
    let mut r = String::new();
    push_section(&mut r, "llm", llm_yaml);
    push_char(&mut r, '\n');
    push_section(&mut r, "img", img_yaml);
    push_char(&mut r, '\n');
    push_section(&mut r, "image_sizes", sizes_yaml);
    proof {
        reveal_strlit("\n");
        assert(r@ =~= spec_config_text(llm_yaml@, img_yaml@, sizes_yaml@));
    }
    r
}

/// `s` with every occurrence of `p` removed, scanning from the left
/// (`str::replace(p, "")`).
pub open spec fn remove_all(s: Seq<char>, p: Seq<char>) -> Seq<char>
    decreases s.len(),
{
    if s.len() == 0 {
        s
    } else if p.len() > 0 && has_prefix(s, p) {
        remove_all(s.skip(p.len() as int), p)
    } else {
        seq![s[0]] + remove_all(s.skip(1), p)
    }
}

/// Where a text service lists its models.
pub open spec fn spec_llm_models_url(endpoint: Seq<char>) -> Seq<char> {
    endpoint + "/models"@
}

/// Where an image service lists its models: its endpoint without
/// `/generations` and trailing slashes, then `/models`.
pub open spec fn spec_img_models_url(endpoint: Seq<char>) -> Seq<char> {
    strip_suffixes(remove_all(endpoint, "/generations"@), "/"@) + "/models"@
}

/// The address that tests a text service.
pub fn llm_models_url(endpoint: &str) -> (r: String)
    ensures
        r@ == spec_llm_models_url(endpoint@),
{
    let mut r = owned(endpoint);
    r.append("/models");
    r
}

/// The address that tests an image service.
pub fn img_models_url(endpoint: &str) -> (r: String)
    ensures
        r@ == spec_img_models_url(endpoint@),
{
    let s = chars_of(endpoint);
    let pat = chars_of("/generations");
    proof {
        reveal_strlit("/generations");
        reveal_strlit("/");
    }
    let n = s.len();
    let mut kept: Vec<char> = Vec::new();
    let mut i: usize = 0;
    proof {
        assert(s@.skip(0) =~= s@);
        assert(remove_all(s@, pat@) =~= kept@ + remove_all(s@.skip(0), pat@));
    }
    while i < n
        invariant
            n == s@.len(),
            s@ == endpoint@,
            pat@ == "/generations"@,
            pat@.len() == 12,
            0 <= i <= n,
            remove_all(s@, pat@) == kept@ + remove_all(s@.skip(i as int), pat@),
        decreases n - i,
    {
        let ghost t = s@.skip(i as int);
        proof {
            assert(s@.subrange(i as int, n as int) =~= t);
        }
        if starts_with_at(s.as_slice(), i, n, pat.as_slice()) {
            proof {
                assert(t.skip(pat@.len() as int) =~= s@.skip(i + pat@.len()));
            }
            i = i + pat.len();
        } else {
            proof {
                assert(t.skip(1) =~= s@.skip(i + 1));
                assert(kept@.push(s@[i as int]) + remove_all(s@.skip(i + 1), pat@) =~= kept@ + (seq![t[0]] + remove_all(t.skip(1), pat@)));
            }
            kept.push(s[i]);
            i = i + 1;
        }
    }
    proof {
        assert(s@.skip(n as int) =~= Seq::<char>::empty());
        assert(kept@ + Seq::<char>::empty() =~= kept@);
    }
    let mut end = kept.len();
    proof {
        assert(kept@.take(end as int) =~= kept@);
    }
    while end > 0 && kept[end - 1] == '/'
        invariant
            0 <= end <= kept@.len(),
            "/"@ == seq!['/'],
            strip_suffixes(kept@, "/"@) == strip_suffixes(kept@.take(end as int), "/"@),
        decreases end,
    {
        proof {
            let u = kept@.take(end as int);
            assert(u.skip(u.len() - 1) =~= seq!['/']);
            assert(u.take(u.len() - 1) =~= kept@.take(end - 1));
        }
        end = end - 1;
    }
    proof {
        let u = kept@.take(end as int);
        assert("/"@ == seq!['/']);
        if has_suffix(u, "/"@) {
            assert(u.skip(u.len() - 1)[0] == u[u.len() - 1]);
            assert(u[u.len() - 1] == kept@[end - 1]);
            assert(false);
        }
    }
    let mut r = substring(kept.as_slice(), 0, end);
    r.append("/models");
    proof {
        assert(kept@.subrange(0, end as int) =~= kept@.take(end as int));
    }
    r
}

/// Whether a test request reached a service: a success, or the service
/// answered 404 or 403.
pub open spec fn spec_connection_ok(status: u16) -> bool {
    (200 <= status <= 299) || status == 404 || status == 403
}

/// Whether a service answered a test request with a status that shows it
/// is reachable.
pub fn connection_ok(status: u16) -> (r: bool)
    ensures
        r == spec_connection_ok(status),
{
    (200 <= status && status <= 299) || status == 404 || status == 403
}

} // verus!
