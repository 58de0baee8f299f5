//! AI integration. One provider (`OpenAiCompatProvider`) covers both OpenAI and
//! Ollama, since Ollama exposes an OpenAI-compatible `/v1/chat/completions`
//! endpoint. Differences are configuration-only: base URL and whether an
//! `Authorization: Bearer` header is sent.

use vstd::prelude::*;
use vstd::string::StrSliceExecFns;

use crate::config::AiConfig;
use crate::text;
use crate::words;

verus! {

#[derive(Debug)]
pub enum AiError {
    NoApiKey(String),
    Http(String),
    Api { status: u16, body: String },
    Parse(String),
}

pub open spec fn error_text(e: AiError) -> Seq<char> {
    match e {
        AiError::NoApiKey(env) => "API key env var "@ + env@ + " not set"@,
        AiError::Http(msg) => "network error: "@ + msg@,
        AiError::Api { status, body } => "API error "@ + words::decimal(status as nat) + ": "@
            + body@,
        AiError::Parse(msg) => "response parse error: "@ + msg@,
    }
}

impl AiError {
    /// What the error says.
    pub fn message(&self) -> (r: String)
        ensures
            r@ == error_text(*self),
    {
        match self {
            AiError::NoApiKey(env) => {
                let mut out = String::from_str("API key env var ");
                out.append(env.as_str());
                out.append(" not set");
                out
            },
            AiError::Http(msg) => {
                let mut out = String::from_str("network error: ");
                out.append(msg.as_str());
                out
            },
            AiError::Api { status, body } => {
                let mut out = String::from_str("API error ");
                words::push_decimal(&mut out, *status as usize);
                out.append(": ");
                out.append(body.as_str());
                out
            },
            AiError::Parse(msg) => {
                let mut out = String::from_str("response parse error: ");
                out.append(msg.as_str());
                out
            },
        }
    }
}

/// Something that completes a prompt.
pub trait AiProvider: Send + Sync {
    fn complete(&self, prompt: &str, input: &str) -> Result<String, AiError>;
}

#[derive(Debug)]
pub struct OpenAiCompatProvider {
    pub base_url: String,
    pub model: String,
    pub api_key: Option<String>,
}

/// A chat request with one message of the user.
pub struct ChatRequest {
    pub model: String,
    pub role: &'static str,
    pub content: String,
    pub stream: bool,
}

/// `s` without the slashes at its end.
pub open spec fn without_slashes(s: Seq<char>) -> Seq<char>
    decreases s.len(),
{
    if s.len() > 0 && s.last() == '/' {
        without_slashes(s.drop_last())
    } else {
        s
    }
}

impl OpenAiCompatProvider {
    /// The URL that requests go to.
    pub fn endpoint(&self) -> (r: String)
        ensures
            r@ == without_slashes(self.base_url@) + "/chat/completions"@,
    {
        let cs = text::chars_of(self.base_url.as_str());
        let mut n: usize = cs.len();
        proof {
            assert(cs@.subrange(0, n as int) =~= cs@);
        }
        while n > 0 && cs[n - 1] == '/'
            invariant
                n <= cs.len(),
                cs@ == self.base_url@,
                without_slashes(cs@.subrange(0, n as int)) == without_slashes(cs@),
            decreases n,
        {
            proof {
                assert(cs@.subrange(0, n as int).drop_last() =~= cs@.subrange(0, n - 1));
            }
            n -= 1;
        }
        let mut out = self.base_url.as_str().substring_char(0, n).to_owned();
        out.append("/chat/completions");
        out
    }

    /// The request for a prompt and the text it is about.
    pub fn request(&self, prompt: &str, input: &str) -> (r: ChatRequest)
        ensures
            r.model@ == self.model@,
            r.role@ == "user"@,
            r.content@ == prompt@ + "\n\n"@ + input@,
            !r.stream,
    {
        let mut content = prompt.to_owned();
        content.append("\n\n");
        content.append(input);
        ChatRequest {
            model: self.model.as_str().to_owned(),
            role: "user",
            content,
            stream: false,
        }
    }
}

/// What a response amounts to: with a failure status its body is the error, else
/// the first of its choices is the completion.
pub fn read_reply(
    status: u16,
    body: String,
    choices: Result<Vec<String>, String>,
) -> (r: Result<String, AiError>)
    ensures
        match r {
            Ok(s) => 200 <= status < 300 && choices is Ok && choices->Ok_0.len() > 0 && s@
                == choices->Ok_0@[0]@,
            Err(AiError::Api { status: st, body: b }) => !(200 <= status < 300) && st == status
                && b == body,
            Err(AiError::Parse(m)) => 200 <= status < 300 && match choices {
                Ok(v) => v.len() == 0 && m@ == "no choices in response"@,
                Err(e) => m == e,
            },
            Err(_) => false,
        },
{
    if !(200 <= status && status < 300) {
        return Err(AiError::Api { status, body });
    }
    match choices {
        Err(e) => Err(AiError::Parse(e)),
        Ok(v) => if v.len() > 0 {
            Ok(v[0].as_str().to_owned())
        } else {
            Err(AiError::Parse("no choices in response".to_owned()))
        },
    }
}

/// Build a provider from `AiConfig` and the value of the configured environment
/// variable (unused for local providers like Ollama, which name none).
pub fn provider_from_config(cfg: &AiConfig, key: &str) -> (r: Result<OpenAiCompatProvider, AiError>)
    ensures
        match r {
            Ok(p) => p.base_url@ == cfg.base_url@ && p.model@ == cfg.model@ && match cfg.api_key_env {
                None => p.api_key is None,
                Some(_) => key@.len() > 0 && p.api_key is Some && p.api_key->Some_0@ == key@,
            },
            Err(AiError::NoApiKey(name)) => cfg.api_key_env is Some && key@.len() == 0 && name@
                == cfg.api_key_env->Some_0@,
            Err(_) => false,
        },
{
    let api_key = match &cfg.api_key_env {
        None => None,
        Some(name) => {
            if key.is_empty() {
                return Err(AiError::NoApiKey(name.as_str().to_owned()));
            }
            Some(key.to_owned())
        },
    };
    Ok(
        OpenAiCompatProvider {
            base_url: cfg.base_url.as_str().to_owned(),
            model: cfg.model.as_str().to_owned(),
            api_key,
        },
    )
}

} // verus!
