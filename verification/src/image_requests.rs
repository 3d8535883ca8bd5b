//! Requests to an image service: the size text, which form of request
//! carries a template picture for a model, the editing endpoint, and the
//! base64 pictures that services send back.
use vstd::prelude::*;
use crate::ooxml::{dec, push_decimal};
use crate::style_extraction::spec_base64;
use crate::style_guide::{spec_to_lowercase, to_lowercase};
use crate::template_pages::{contains_keyword, contains_sub};
use crate::text::{chars_of, has_prefix, owned, push_char, starts_with_at, substring};

verus! {

/// The size of a picture as the services take it: `WIDTHxHEIGHT`.
pub open spec fn spec_size_text(width: u32, height: u32) -> Seq<char> {
    dec(width as nat) + seq!['x'] + dec(height as nat)
}

/// The size text of a picture.
pub fn image_size_text(width: u32, height: u32) -> (r: String)
    ensures
        r@ == spec_size_text(width, height),
{
    let mut r = String::new();
    push_decimal(&mut r, width as u64);
    push_char(&mut r, 'x');
    push_decimal(&mut r, height as u64);
    r
}

/// How a template picture goes with a drawing request.
#[derive(Clone, Copy, Debug, PartialEq, Eq, Structural)]
pub enum TemplateRequest {
    /// A multipart request to the editing endpoint.
    Edits,
    /// A JSON request with the picture under `extra_body`.
    ExtraBody,
    /// A JSON request with the picture inline.
    Inline,
}

/// The form of request for a model by its lower-cased name: GPT models
/// edit, Agnes models take the picture in `extra_body`, others inline.
pub open spec fn spec_template_request(lower_model: Seq<char>) -> TemplateRequest {
    if contains_sub(lower_model, "gpt"@) {
        TemplateRequest::Edits
    } else if has_prefix(lower_model, "agnes"@) {
        TemplateRequest::ExtraBody
    } else {
        TemplateRequest::Inline
    }
}

/// The form of request that carries a template picture for a model.
pub fn template_request(model: &str) -> (r: TemplateRequest)
    ensures
        r == spec_template_request(spec_to_lowercase(model@)),
{
    let lower = to_lowercase(model);
    let t = chars_of(lower.as_str());
    proof {
        reveal_strlit("gpt");
        reveal_strlit("agnes");
    }
    if contains_keyword(&t, "gpt") {
        return TemplateRequest::Edits;
    }
    let a = chars_of("agnes");
    proof {
        assert(t@.subrange(0, t@.len() as int) =~= t@);
    }
    if starts_with_at(t.as_slice(), 0, t.len(), a.as_slice()) {
        TemplateRequest::ExtraBody
    } else {
        TemplateRequest::Inline
    }
}

/// `s` with every occurrence of `p` replaced by `q`, scanning from the
/// left (`str::replace`).
pub open spec fn replace_all(s: Seq<char>, p: Seq<char>, q: Seq<char>) -> Seq<char>
    decreases s.len(),
{
    if s.len() == 0 {
        s
    } else if p.len() > 0 && has_prefix(s, p) {
        q + replace_all(s.skip(p.len() as int), p, q)
    } else {
        seq![s[0]] + replace_all(s.skip(1), p, q)
    }
}

/// What the editing service is asked when it draws a page's elements.
pub const ELEMENTS_PROMPT: &'static str = "remove all text, keep visual elements only";
/// The size of an elements picture.
pub const ELEMENTS_SIZE: &'static str = "2048x1152";
pub const EDITS_PATH: &'static str = "/images/edits";

/// `s` without its trailing `/`s.
pub open spec fn trim_slashes(s: Seq<char>) -> Seq<char>
    decreases s.len(),
{
    if s.len() > 0 && s.last() == '/' {
        trim_slashes(s.drop_last())
    } else {
        s
    }
}

/// The editing address under a service's base address.
pub open spec fn spec_elements_url(base: Seq<char>) -> Seq<char> {
    trim_slashes(base) + EDITS_PATH@
}

/// The editing address under a service's base address: the base without
/// trailing `/`s, then `/images/edits`.
pub fn elements_url(base: &str) -> (r: String)
    ensures
        r@ == spec_elements_url(base@),
{
    let s = chars_of(base);
    let mut i = s.len();
    proof {
        assert(s@.subrange(0, s@.len() as int) =~= s@);
    }
    while i > 0 && s[i - 1] == '/'
        invariant
            0 <= i <= s@.len(),
            s@ == base@,
            trim_slashes(base@) == trim_slashes(s@.subrange(0, i as int)),
        decreases i,
    {
        proof {
            assert(s@.subrange(0, i as int).drop_last() =~= s@.subrange(0, i - 1));
        }
        i = i - 1;
    }
    let mut r = substring(s.as_slice(), 0, i);
    r.append(EDITS_PATH);
    r
}

/// An answer that names a picture by its web address (`http...`) rather
/// than holding it in base64.
pub fn is_web_address(s: &str) -> (r: bool)
    ensures
        r == has_prefix(s@, "http"@),
{
    crate::page_files::starts_with(s, "http")
}

/// The editing endpoint next to a generation endpoint.
pub fn edits_endpoint(endpoint: &str) -> (r: String)
    ensures
        r@ == replace_all(endpoint@, "/generations"@, "/edits"@),
{
    let s = chars_of(endpoint);
    let pat = chars_of("/generations");
    proof {
        reveal_strlit("/generations");
    }
    let n = s.len();
    let mut r = String::new();
    let mut i: usize = 0;
    proof {
        assert(s@.skip(0) =~= s@);
        assert(replace_all(s@, pat@, "/edits"@) =~= r@ + replace_all(s@.skip(0), pat@, "/edits"@));
    }
    while i < n
        invariant
            n == s@.len(),
            s@ == endpoint@,
            pat@ == "/generations"@,
            pat@.len() == 12,
            0 <= i <= n,
            replace_all(s@, pat@, "/edits"@) == r@ + replace_all(s@.skip(i as int), pat@, "/edits"@),
        decreases n - i,
    {
        let ghost t = s@.skip(i as int);
        proof {
            assert(s@.subrange(i as int, n as int) =~= t);
        }
        let ghost before = r@;
        if starts_with_at(s.as_slice(), i, n, pat.as_slice()) {
            r.append("/edits");
            proof {
                assert(t.skip(pat@.len() as int) =~= s@.skip(i + pat@.len()));
                assert(r@ + replace_all(s@.skip(i + 12), pat@, "/edits"@) =~= before + ("/edits"@ + replace_all(
                    t.skip(12),
                    pat@,
                    "/edits"@,
                )));
            }
            i = i + pat.len();
        } else {
            push_char(&mut r, s[i]);
            proof {
                assert(t.skip(1) =~= s@.skip(i + 1));
                assert(r@ + replace_all(s@.skip(i + 1), pat@, "/edits"@) =~= before + (seq![t[0]] + replace_all(
                    t.skip(1),
                    pat@,
                    "/edits"@,
                )));
            }
            i = i + 1;
        }
    }
    proof {
        assert(s@.skip(n as int) =~= Seq::<char>::empty());
        assert(r@ + Seq::<char>::empty() =~= r@);
    }
    r
}

/// `base64::engine::general_purpose::STANDARD.decode`: with canonical
/// padding required and no trailing bits allowed (the crate's `PAD`
/// configuration), a text decodes exactly when it is the standard base64
/// text of some bytes, and then to those bytes. The text of a decoding
/// error is not stated.
#[verifier::external_body]
fn decode_base64(text: &str) -> (r: Result<Vec<u8>, String>)
    ensures
        r matches Ok(b) ==> spec_base64(b@) == text@,
        (exists|b: Seq<u8>| spec_base64(b) == text@) ==> r is Ok,
{
    base64::Engine::decode(&base64::engine::general_purpose::STANDARD, text).map_err(|e| e.to_string())
}

pub const DECODE_ERROR_PREFIX: &'static str = "Failed to decode base64 image: ";

/// The bytes of a picture that a service sent as base64 text; an error,
/// starting with `Failed to decode base64 image: `, when the text is not
/// standard base64.
pub fn decode_image_base64(text: &str) -> (r: Result<Vec<u8>, String>)
    ensures
        r matches Ok(b) ==> spec_base64(b@) == text@,
        r matches Err(e) ==> e@.len() >= DECODE_ERROR_PREFIX@.len() && e@.take(DECODE_ERROR_PREFIX@.len() as int)
            == DECODE_ERROR_PREFIX@ && !(exists|b: Seq<u8>| spec_base64(b) == text@),
{
    match decode_base64(text) {
        Ok(b) => Ok(b),
        Err(e) => {
            let mut m = owned(DECODE_ERROR_PREFIX);
            m.append(e.as_str());
            proof {
                assert(m@.take(DECODE_ERROR_PREFIX@.len() as int) =~= DECODE_ERROR_PREFIX@);
            }
            Err(m)
        },
    }
}

pub const REFINE_HEAD: &'static str = "请根据以下要求对图片进行微调，保持整体风格和布局不变，只修改指定部分：\n\n";
pub const REFINE_TAIL: &'static str = "\n\n请生成修改后的图片。";

/// The request that asks the image service to touch up a page picture:
/// the wishes, framed by the instruction to keep the rest unchanged.
pub fn refine_prompt(wishes: &str) -> (r: String)
    ensures
        r@ == REFINE_HEAD@ + wishes@ + REFINE_TAIL@,
{
    let mut r = owned(REFINE_HEAD);
    r.append(wishes);
    r.append(REFINE_TAIL);
    r
}

} // verus!
