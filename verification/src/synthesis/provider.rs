//! Language model services and how they are asked.
use super::ProviderConfig;
use crate::json;
use crate::text::{concat, concat3, format_number, str_eq};
use vstd::prelude::*;

verus! {

use crate::json::{json_get, json_item, json_items, json_string, json_valid};
use crate::text::decimal;
use vstd::string::StringExecFns;

#[derive(Debug)]
pub enum ProviderError {
    /// The service could not be reached, or its answer could not be read.
    Http(String),
    Api { status: u16, message: String },
    EmptyResponse,
    RateLimit,
}

impl ProviderError {
    /// The error in words.
    pub fn message(&self) -> (r: String)
        ensures
            r@ == match *self {
                ProviderError::Http(e) => "HTTP error: "@ + e@,
                ProviderError::Api { status, message } => "API error "@ + decimal(status as nat)
                    + ": "@ + message@,
                ProviderError::EmptyResponse => "Empty response from provider"@,
                ProviderError::RateLimit => "Rate limit exceeded"@,
            },
    {
        match self {
            ProviderError::Http(e) => concat("HTTP error: ", e.as_str()),
            ProviderError::Api { status, message } => {
                let n = format_number(*status as u64);
                let mut r = concat3("API error ", n.as_str(), ": ");
                r.append(message.as_str());
                r
            },
            ProviderError::EmptyResponse => "Empty response from provider".to_owned(),
            ProviderError::RateLimit => "Rate limit exceeded".to_owned(),
        }
    }
}

/// How a service is spoken to.
#[derive(Debug, Clone, Copy, PartialEq, Eq, Structural)]
pub enum Protocol {
    OpenAi,
    Gemini,
}

/// A language model service.
#[derive(Debug)]
pub struct Provider {
    pub name: String,
    pub protocol: Protocol,
    pub api_key: String,
    pub model: String,
    /// Where requests are sent.
    pub endpoint: String,
    /// Requests per minute of the free tier.
    pub rpm: u32,
    /// Requests per day of the free tier.
    pub rpd: u32,
    pub timeout_secs: u64,
}

/// Whether a provider is reached in this way.
pub open spec fn reached_by(
    p: Provider,
    protocol: Protocol,
    endpoint: Seq<char>,
    rpm: u32,
    rpd: u32,
    timeout_secs: u64,
) -> bool {
    &&& p.protocol == protocol
    &&& p.endpoint@ == endpoint
    &&& p.rpm == rpm
    &&& p.rpd == rpd
    &&& p.timeout_secs == timeout_secs
}

/// The configured model, or else a default.
pub open spec fn model_or(model: Seq<char>, default: Seq<char>) -> Seq<char> {
    if model.len() == 0 {
        default
    } else {
        model
    }
}

/// Where a Gemini model is asked.
pub open spec fn gemini_url(model: Seq<char>, api_key: Seq<char>) -> Seq<char> {
    "https://generativelanguage.googleapis.com/v1beta/models/"@ + model
        + ":generateContent?key="@ + api_key
}

/// Whether a provider is the one that a configuration names.
pub open spec fn is_provider(p: Provider, c: ProviderConfig) -> bool {
    &&& p.name@ == c.name@
    &&& p.api_key@ == c.api_key@
    &&& if c.name@ == "groq"@ {
        &&& p.model@ == model_or(c.model@, "llama-3.3-70b-versatile"@)
        &&& reached_by(
            p,
            Protocol::OpenAi,
            "https://api.groq.com/openai/v1/chat/completions"@,
            30,
            14400,
            60,
        )
    } else if c.name@ == "gemini"@ {
        &&& p.model@ == model_or(c.model@, "gemini-1.5-flash"@)
        &&& reached_by(p, Protocol::Gemini, gemini_url(p.model@, c.api_key@), 15, 1500, 60)
    } else {
        &&& p.model@ == c.model@
        &&& if c.name@ == "deepseek"@ {
            reached_by(
                p,
                Protocol::OpenAi,
                "https://api.deepseek.com/v1/chat/completions"@,
                14,
                1000,
                90,
            )
        } else if c.name@ == "mistral"@ {
            reached_by(
                p,
                Protocol::OpenAi,
                "https://api.mistral.ai/v1/chat/completions"@,
                1,
                200,
                90,
            )
        } else if c.name@ == "openrouter"@ {
            reached_by(
                p,
                Protocol::OpenAi,
                "https://openrouter.ai/api/v1/chat/completions"@,
                20,
                200,
                90,
            )
        } else if c.name@ == "together"@ {
            reached_by(
                p,
                Protocol::OpenAi,
                "https://api.together.xyz/v1/chat/completions"@,
                60,
                1000,
                90,
            )
        } else {
            reached_by(
                p,
                Protocol::OpenAi,
                "https://api."@ + c.name@ + ".com/v1/chat/completions"@,
                10,
                100,
                90,
            )
        }
    }
}

fn open_ai(config: &ProviderConfig, endpoint: String, rpm: u32, rpd: u32) -> (p: Provider)
    ensures
        p.name@ == config.name@,
        p.api_key@ == config.api_key@,
        p.model@ == config.model@,
        reached_by(p, Protocol::OpenAi, endpoint@, rpm, rpd, 90),
{
    Provider {
        name: config.name.clone(),
        protocol: Protocol::OpenAi,
        api_key: config.api_key.clone(),
        model: config.model.clone(),
        endpoint,
        rpm,
        rpd,
        timeout_secs: 90,
    }
}

/// Builds a provider from its configuration. An unknown one is taken to be compatible with
/// OpenAI, under a host of its name.
pub fn build_provider(config: &ProviderConfig) -> (p: Provider)
    ensures
        is_provider(p, *config),
{
    let name = config.name.as_str();
    if str_eq(name, "groq") {
        let model = if config.model.as_str().is_empty() {
            "llama-3.3-70b-versatile".to_owned()
        } else {
            config.model.clone()
        };
        Provider {
            name: config.name.clone(),
            protocol: Protocol::OpenAi,
            api_key: config.api_key.clone(),
            model,
            endpoint: "https://api.groq.com/openai/v1/chat/completions".to_owned(),
            rpm: 30,
            rpd: 14400,
            timeout_secs: 60,
        }
    } else if str_eq(name, "gemini") {
        let model = if config.model.as_str().is_empty() {
            "gemini-1.5-flash".to_owned()
        } else {
            config.model.clone()
        };
        let mut endpoint = concat3(
            "https://generativelanguage.googleapis.com/v1beta/models/",
            model.as_str(),
            ":generateContent?key=",
        );
        endpoint.append(config.api_key.as_str());
        Provider {
            name: config.name.clone(),
            protocol: Protocol::Gemini,
            api_key: config.api_key.clone(),
            model,
            endpoint,
            rpm: 15,
            rpd: 1500,
            timeout_secs: 60,
        }
    } else if str_eq(name, "deepseek") {
        open_ai(config, "https://api.deepseek.com/v1/chat/completions".to_owned(), 14, 1000)
    } else if str_eq(name, "mistral") {
        open_ai(config, "https://api.mistral.ai/v1/chat/completions".to_owned(), 1, 200)
    } else if str_eq(name, "openrouter") {
        open_ai(config, "https://openrouter.ai/api/v1/chat/completions".to_owned(), 20, 200)
    } else if str_eq(name, "together") {
        open_ai(config, "https://api.together.xyz/v1/chat/completions".to_owned(), 60, 1000)
    } else {
        open_ai(
            config,
            concat3("https://api.", name, ".com/v1/chat/completions"),
            10,
            100,
        )
    }
}

/// The member of a value that may be missing.
pub open spec fn member(v: Option<Seq<char>>, key: Seq<char>) -> Option<Seq<char>> {
    match v {
        Some(t) => json_get(t, key),
        None => None,
    }
}

/// The first item of a value that may be missing.
pub open spec fn first_item(v: Option<Seq<char>>) -> Option<Seq<char>> {
    match v {
        Some(t) => json_item(t, 0),
        None => None,
    }
}

/// The string of a value that may be missing.
pub open spec fn as_string(v: Option<Seq<char>>) -> Option<Seq<char>> {
    match v {
        Some(t) => json_string(t),
        None => None,
    }
}

pub open spec fn text_of(v: Option<String>) -> Option<Seq<char>> {
    match v {
        Some(t) => Some(t@),
        None => None,
    }
}

fn get_member(v: Option<String>, key: &str) -> (r: Option<String>)
    ensures
        text_of(r) == member(text_of(v), key@),
{
    match v {
        Some(t) => json::get(t.as_str(), key),
        None => None,
    }
}

fn get_first(v: Option<String>) -> (r: Option<String>)
    ensures
        text_of(r) == first_item(text_of(v)),
{
    match v {
        Some(t) => json::item(t.as_str(), 0),
        None => None,
    }
}

fn get_text(v: Option<String>) -> (r: Option<String>)
    ensures
        text_of(r) == as_string(text_of(v)),
{
    match v {
        Some(t) => json::string(t.as_str()),
        None => None,
    }
}

/// The generated text in an answer: the content of the first choice, or the text of the first
/// part of the first candidate.
pub open spec fn generated_text(protocol: Protocol, body: Seq<char>) -> Option<Seq<char>> {
    match protocol {
        Protocol::OpenAi => as_string(
            member(member(first_item(json_get(body, "choices"@)), "message"@), "content"@),
        ),
        Protocol::Gemini => as_string(
            member(
                first_item(
                    member(member(first_item(json_get(body, "candidates"@)), "content"@), "parts"@),
                ),
                "text"@,
            ),
        ),
    }
}

/// What an answer means: a failure, too many requests among them, or the generated text.
pub open spec fn is_answer(
    protocol: Protocol,
    status: u16,
    body: Seq<char>,
    r: Result<String, ProviderError>,
) -> bool {
    if !(200 <= status < 300) {
        if status == 429 {
            r is Err && r->Err_0 is RateLimit
        } else {
            &&& r is Err
            &&& r->Err_0 matches ProviderError::Api { status: s, message }
            &&& s == status
            &&& message@ == body
        }
    } else if !json_valid(body) {
        &&& r is Err
        &&& r->Err_0 matches ProviderError::Http(e)
        &&& e@ == "error decoding response body"@
    } else {
        match generated_text(protocol, body) {
            Some(t) => r is Ok && r->Ok_0@ == t,
            None => r is Err && r->Err_0 is EmptyResponse,
        }
    }
}

/// Reads the answer of a service.
pub fn parse_response(protocol: Protocol, status: u16, body: &str) -> (r: Result<
    String,
    ProviderError,
>)
    ensures
        is_answer(protocol, status, body@, r),
{
    if !(200 <= status && status < 300) {
        if status == 429 {
            return Err(ProviderError::RateLimit);
        }
        return Err(ProviderError::Api { status, message: body.to_owned() });
    }
    if !json::valid(body) {
        return Err(ProviderError::Http("error decoding response body".to_owned()));
    }
    let text = match protocol {
        Protocol::OpenAi => {
            let choice = get_first(json::get(body, "choices"));
            get_text(get_member(get_member(choice, "message"), "content"))
        },
        Protocol::Gemini => {
            let candidate = get_first(json::get(body, "candidates"));
            let part = get_first(get_member(get_member(candidate, "content"), "parts"));
            get_text(get_member(part, "text"))
        },
    };
    match text {
        Some(t) => Ok(t),
        None => Err(ProviderError::EmptyResponse),
    }
}

/// The text of an answer of the first kind is the content of the message of its first choice.
pub proof fn law_first_choice_is_the_answer(
    status: u16,
    body: Seq<char>,
    choices: Seq<char>,
    items: Seq<Seq<char>>,
    message: Seq<char>,
    content: Seq<char>,
    text: Seq<char>,
    r: Result<String, ProviderError>,
)
    requires
        is_answer(Protocol::OpenAi, status, body, r),
        200 <= status < 300,
        json_valid(body),
        json_get(body, "choices"@) == Some(choices),
        json_items(choices) == Some(items),
        items.len() > 0,
        json_get(items[0], "message"@) == Some(message),
        json_get(message, "content"@) == Some(content),
        json_string(content) == Some(text),
    ensures
        r is Ok,
        r->Ok_0@ == text,
{
}

/// The text of an answer of the second kind is that of the first part of its first candidate.
pub proof fn law_first_part_is_the_answer(
    status: u16,
    body: Seq<char>,
    candidates: Seq<char>,
    items: Seq<Seq<char>>,
    content: Seq<char>,
    parts: Seq<char>,
    part_items: Seq<Seq<char>>,
    part: Seq<char>,
    text: Seq<char>,
    r: Result<String, ProviderError>,
)
    requires
        is_answer(Protocol::Gemini, status, body, r),
        200 <= status < 300,
        json_valid(body),
        json_get(body, "candidates"@) == Some(candidates),
        json_items(candidates) == Some(items),
        items.len() > 0,
        json_get(items[0], "content"@) == Some(content),
        json_get(content, "parts"@) == Some(parts),
        json_items(parts) == Some(part_items),
        part_items.len() > 0,
        json_get(part_items[0], "text"@) == Some(part),
        json_string(part) == Some(text),
    ensures
        r is Ok,
        r->Ok_0@ == text,
{
}

/// Only an answer of success holds a text; that there were too many requests is told by its
/// status alone, and any other failure hands on its status and its body.
pub proof fn law_failures_are_told_apart(
    protocol: Protocol,
    status: u16,
    body: Seq<char>,
    r: Result<String, ProviderError>,
)
    requires
        is_answer(protocol, status, body, r),
    ensures
        r is Ok ==> 200 <= status < 300 && json_valid(body),
        (r is Err && r->Err_0 is RateLimit) == (status == 429),
        (r is Err && r->Err_0 is Api) == (status != 429 && !(200 <= status < 300)),
        r is Err && r->Err_0 is Api ==> r->Err_0->status == status && r->Err_0->message@ == body,
        r is Err && r->Err_0 is EmptyResponse ==> 200 <= status < 300 && json_valid(body),
{
}

/// A provider is asked under the name, the key and the model of its configuration, over an
/// encrypted connection, and never more often in a minute than in a day. One that is not known
/// has its service at the host of its name.
pub proof fn law_provider_is_asked_as_configured(p: Provider, c: ProviderConfig)
    requires
        is_provider(p, c),
    ensures
        p.name@ == c.name@,
        p.api_key@ == c.api_key@,
        c.model@.len() > 0 ==> p.model@ == c.model@,
        p.endpoint@.len() >= 8,
        p.endpoint@.subrange(0, 8) == "https://"@,
        0 < p.rpm <= p.rpd,
        60 <= p.timeout_secs <= 90,
        c.name@ == "gemini"@ <==> p.protocol == Protocol::Gemini,
        c.name@ == "gemini"@ ==> exists|a: Seq<char>, b: Seq<char>|
            p.endpoint@ == #[trigger] (a + p.model@ + b) + c.api_key@,
        !known_provider(c.name@) ==> p.endpoint@ == "https://api."@ + c.name@
            + ".com/v1/chat/completions"@,
{
    reveal_strlit("https://");
    reveal_strlit("https://api.");
    reveal_strlit("groq");
    reveal_strlit("gemini");
    reveal_strlit("deepseek");
    reveal_strlit("mistral");
    reveal_strlit("openrouter");
    reveal_strlit("together");
    reveal_strlit("https://api.groq.com/openai/v1/chat/completions");
    reveal_strlit("https://generativelanguage.googleapis.com/v1beta/models/");
    reveal_strlit("https://api.deepseek.com/v1/chat/completions");
    reveal_strlit("https://api.mistral.ai/v1/chat/completions");
    reveal_strlit("https://openrouter.ai/api/v1/chat/completions");
    reveal_strlit("https://api.together.xyz/v1/chat/completions");
    assert("groq"@[1] != "gemini"@[1]);
    assert(p.endpoint@.subrange(0, 8) =~= "https://"@);
    if c.name@ == "gemini"@ {
        let a = "https://generativelanguage.googleapis.com/v1beta/models/"@;
        let b = ":generateContent?key="@;
        assert(p.endpoint@ =~= (a + p.model@ + b) + c.api_key@);
    }
}

/// Whether the service of a provider is known by its name.
pub open spec fn known_provider(name: Seq<char>) -> bool {
    ||| name == "groq"@
    ||| name == "gemini"@
    ||| name == "deepseek"@
    ||| name == "mistral"@
    ||| name == "openrouter"@
    ||| name == "together"@
}

} // verus!
