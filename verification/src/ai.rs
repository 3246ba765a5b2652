//! AI model configuration: which OpenAI-compatible endpoints and models the
//! AI nodes call.
use vstd::prelude::*;
use crate::b64::{b64_standard_encoding, encode_standard};
use crate::text::{chars_of, has_non_white, not_blank, push_str, string_from_chars, trim_chars, trim_spec};

verus! {

/// One configured model.
#[derive(Debug, Clone, Default)]
pub struct ModelConfig {
    pub model: String,
    pub api_key: String,
    /// Base URL, e.g. `https://api.openai.com/v1`.
    pub base_url: String,
}

/// The two configurable models (text and vision).
#[derive(Debug, Clone, Default)]
pub struct AiConfig {
    pub llm: ModelConfig,
    pub vision: ModelConfig,
}

/// Token accounting from a response's `usage` field (zero where the provider
/// leaves it out).
#[derive(Debug, Clone, Copy, Default)]
pub struct Usage {
    pub prompt_tokens: u64,
    pub completion_tokens: u64,
    pub total_tokens: u64,
}

/// `s` without trailing `/` characters.
pub open spec fn trim_end_slashes(s: Seq<char>) -> Seq<char>
    decreases s.len(),
{
    if s.len() > 0 && s.last() == '/' {
        trim_end_slashes(s.drop_last())
    } else {
        s
    }
}

impl ModelConfig {
    /// Whether both the base URL and the model name are set (not blank).
    pub fn is_configured(&self) -> (b: bool)
        ensures
            b == (has_non_white(self.base_url@) && has_non_white(self.model@)),
    {
        not_blank(self.base_url.as_str()) && not_blank(self.model.as_str())
    }

    /// The chat-completions URL: the base URL without trailing slashes,
    /// followed by `/chat/completions`.
    pub fn endpoint(&self) -> (url: String)
        ensures
            url@ == trim_end_slashes(self.base_url@) + "/chat/completions"@,
    {
        let mut cs = chars_of(self.base_url.as_str());
        let mut n = cs.len();
        assert(cs@.take(n as int) =~= cs@);
        while n > 0 && cs[n - 1] == '/'
            invariant
                n <= cs.len(),
                trim_end_slashes(cs@.take(n as int)) == trim_end_slashes(cs@),
            decreases n,
        {
            assert(cs@.take(n as int).drop_last() =~= cs@.take(n - 1));
            n -= 1;
        }
        assert(cs@.take(cs.len() as int) =~= cs@);
        proof {
            assert(cs@.take(n as int) == trim_end_slashes(cs@.take(n as int)));
        }
        cs.truncate(n);
        assert(cs@ =~= trim_end_slashes(self.base_url@));
        let mut url = string_from_chars(&cs);
        push_str(&mut url, "/chat/completions");
        url
    }
}

/// The user message of an AI judgement: the instruction, a blank line and
/// the input, and where a format is given (not blank), the request to answer
/// in exactly that format.
pub open spec fn judge_prompt_spec(instruction: Seq<char>, input: Seq<char>, format: Seq<char>) -> Seq<char> {
    instruction + "\n\n"@ + input + if has_non_white(format) {
        "\n\n请严格按以下格式输出（只输出结果本身，不要额外说明）：\n"@ + format
    } else {
        Seq::empty()
    }
}

/// The user message of an AI judgement.
pub fn judge_prompt(instruction: &str, input: &str, format: &str) -> (s: String)
    ensures
        s@ == judge_prompt_spec(instruction@, input@, format@),
{
    let mut s = String::new();
    push_str(&mut s, instruction);
    push_str(&mut s, "\n\n");
    push_str(&mut s, input);
    if not_blank(format) {
        push_str(&mut s, "\n\n请严格按以下格式输出（只输出结果本身，不要额外说明）：\n");
        push_str(&mut s, format);
    }
    s
}

/// Whether `s` begins with `p`.
pub open spec fn has_prefix(s: Seq<char>, p: Seq<char>) -> bool {
    s.len() >= p.len() && s.take(p.len() as int) == p
}

/// Whether `s` ends with `p`.
pub open spec fn has_suffix(s: Seq<char>, p: Seq<char>) -> bool {
    s.len() >= p.len() && s.skip(s.len() - p.len()) == p
}

fn starts_with(s: &Vec<char>, p: &str) -> (b: bool)
    ensures
        b == has_prefix(s@, p@),
{
    let pc = chars_of(p);
    if s.len() < pc.len() {
        return false;
    }
    let mut i: usize = 0;
    while i < pc.len()
        invariant
            i <= pc.len() <= s.len(),
            pc@ == p@,
            forall|k: int| 0 <= k < i ==> s@[k] == pc@[k],
        decreases pc.len() - i,
    {
        if s[i] != pc[i] {
            return false;
        }
        i += 1;
    }
    assert(s@.take(pc.len() as int) =~= pc@);
    true
}

fn ends_with(s: &Vec<char>, p: &str) -> (b: bool)
    ensures
        b == has_suffix(s@, p@),
{
    let pc = chars_of(p);
    if s.len() < pc.len() {
        return false;
    }
    let off = s.len() - pc.len();
    let mut i: usize = 0;
    while i < pc.len()
        invariant
            i <= pc.len(),
            off + pc.len() == s.len(),
            pc@ == p@,
            forall|k: int| 0 <= k < i ==> s@[off + k] == pc@[k],
        decreases pc.len() - i,
    {
        if s[off + i] != pc[i] {
            assert(s@.skip(off as int)[i as int] != pc@[i as int]);
            return false;
        }
        i += 1;
    }
    assert(s@.skip(off as int) =~= pc@);
    true
}

/// Where a picture for the vision model comes from.
pub enum ImageSource {
    /// An `http(s):` or `data:` URL, used as it is.
    Url(String),
    /// A file to read, and the MIME type its extension gives.
    File(String, &'static str),
}

/// The MIME type of a picture file by its extension (PNG where none
/// matches).
pub open spec fn mime_of(path: Seq<char>) -> Seq<char> {
    if has_suffix(path, ".jpg"@) || has_suffix(path, ".jpeg"@) {
        "image/jpeg"@
    } else if has_suffix(path, ".gif"@) {
        "image/gif"@
    } else if has_suffix(path, ".webp"@) {
        "image/webp"@
    } else {
        "image/png"@
    }
}

/// Whether the text is a URL the vision model takes as it is.
pub open spec fn is_image_url(s: Seq<char>) -> bool {
    has_prefix(s, "http://"@) || has_prefix(s, "https://"@) || has_prefix(s, "data:"@)
}

/// Classify the input of the vision node: the trimmed text is a URL, or the
/// path of a file.
pub fn image_source(input: &str) -> (r: ImageSource)
    ensures
        match r {
            ImageSource::Url(u) => is_image_url(trim_spec(input@)) && u@ == trim_spec(input@),
            ImageSource::File(p, m) => !is_image_url(trim_spec(input@)) && p@ == trim_spec(input@) && m@
                == mime_of(trim_spec(input@)),
        },
{
    let raw = chars_of(input);
    let t = trim_chars(&raw);
    let s = string_from_chars(&t);
    if starts_with(&t, "http://") || starts_with(&t, "https://") || starts_with(&t, "data:") {
        return ImageSource::Url(s);
    }
    let mime = if ends_with(&t, ".jpg") || ends_with(&t, ".jpeg") {
        "image/jpeg"
    } else if ends_with(&t, ".gif") {
        "image/gif"
    } else if ends_with(&t, ".webp") {
        "image/webp"
    } else {
        "image/png"
    };
    proof {
        reveal_strlit("image/jpeg");
        reveal_strlit("image/gif");
        reveal_strlit("image/webp");
        reveal_strlit("image/png");
    }
    ImageSource::File(s, mime)
}

/// A `data:` URL of a picture: its MIME type and its bytes in base64.
pub fn image_data_url(bytes: &[u8], mime: &str) -> (s: String)
    ensures
        s@ == "data:"@ + mime@ + ";base64,"@ + b64_standard_encoding(bytes@),
{
    let mut s = String::new();
    push_str(&mut s, "data:");
    push_str(&mut s, mime);
    push_str(&mut s, ";base64,");
    let b = encode_standard(bytes);
    push_str(&mut s, b.as_str());
    s
}

} // verus!
