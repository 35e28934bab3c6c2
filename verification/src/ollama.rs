//! The client side of the embedding provider: where the service lives, which
//! model embeds, and what is asked of it. Sending the request is the
//! caller's.

use vstd::prelude::*;

verus! {

/// `url::Url`, a parsed absolute URL. Carried through unchanged.
#[verifier::external_type_specification]
#[verifier::external_body]
pub struct ExUrl(url::Url);

/// `url::ParseError`, why a string is no URL. Carried through unchanged.
#[verifier::external_type_specification]
#[verifier::external_body]
pub struct ExParseError(url::ParseError);

/// What `url::Url::parse` makes of a string: the URL, or why it is none.
pub uninterp spec fn parsed_url(input: Seq<char>) -> Result<url::Url, url::ParseError>;

/// `url::Url::parse`: parses an absolute URL from a string. The outcome
/// depends on the string alone.
#[verifier::external_body]
fn parse_url(input: &str) -> (parsed: Result<url::Url, url::ParseError>)
    ensures
        parsed == parsed_url(input@),
{
    url::Url::parse(input)
}

/// The model that embeds unless the caller names another.
pub const DEFAULT_EMBED_MODEL: &'static str = "nomic-embed-text";

/// Where the service is looked for unless the caller says otherwise.
pub const DEFAULT_BASE_URL: &'static str = "http://localhost:11434";

/// What a failure says where the service answered with another number of
/// embeddings than it was asked for.
pub const WRONG_EMBEDDING_COUNT: &'static str =
    "the service did not return one embedding for each text";

/// Why the embedding provider could not be used.
#[derive(Debug)]
pub enum OllamaError {
    /// The address of the service is no URL.
    ParseUrl(url::ParseError),
    /// The request failed; the message says how.
    Request(String),
}

/// What to embed: one text, or several in one request.
#[derive(Debug)]
pub enum EmbedInput {
    Single(String),
    Multiple(Vec<String>),
}

/// A request for embeddings: the model to use and the texts to embed.
#[derive(Debug)]
pub struct EmbedRequest {
    pub model: String,
    pub input: EmbedInput,
}

/// The view of each of `texts`.
pub open spec fn text_views(texts: Seq<String>) -> Seq<Seq<char>> {
    texts.map_values(|text: String| text@)
}

/// Copies texts.
fn copy_texts(texts: &[String]) -> (copy: Vec<String>)
    ensures
        text_views(copy@) == text_views(texts@),
{
    let mut copy: Vec<String> = Vec::new();
    let mut i: usize = 0;
    while i < texts.len()
        invariant
            i <= texts@.len(),
            text_views(copy@) == text_views(texts@).take(i as int),
        decreases texts@.len() - i,
    {
        let ghost before = text_views(copy@);
        copy.push(texts[i].clone());
        assert(text_views(copy@) =~= before.push(texts@[i as int]@));
        i += 1;
    }
    assert(text_views(texts@).take(i as int) =~= text_views(texts@));
    copy
}

/// The address of an embedding service and the model to ask for.
#[derive(Debug)]
pub struct OllamaClient {
    url: url::Url,
    embed_model: String,
}

impl OllamaClient {
    /// The address of the service.
    pub closed spec fn address(&self) -> url::Url {
        self.url
    }

    /// The name of the embedding model.
    pub closed spec fn model(&self) -> Seq<char> {
        self.embed_model@
    }

    /// A client for the service at a parsed address, with the default
    /// embedding model; or, of a string that did not parse, the failure.
    pub fn from_parsed(parsed: Result<url::Url, url::ParseError>) -> (client: Result<
        OllamaClient,
        OllamaError,
    >)
        ensures
            match parsed {
                Ok(address) => client is Ok && client->Ok_0.address() == address
                    && client->Ok_0.model() == DEFAULT_EMBED_MODEL@,
                Err(error) => client == Err::<OllamaClient, OllamaError>(
                    OllamaError::ParseUrl(error),
                ),
            },
    {
        match parsed {
            Ok(address) => Ok(
                OllamaClient { url: address, embed_model: DEFAULT_EMBED_MODEL.to_owned() },
            ),
            Err(error) => Err(OllamaError::ParseUrl(error)),
        }
    }

    /// A client for the service at `url`, with the default embedding model.
    /// Fails exactly where `url` does not parse as an absolute URL.
    pub fn from_url(url: &str) -> (client: Result<OllamaClient, OllamaError>)
        ensures
            match parsed_url(url@) {
                Ok(address) => client is Ok && client->Ok_0.address() == address
                    && client->Ok_0.model() == DEFAULT_EMBED_MODEL@,
                Err(error) => client == Err::<OllamaClient, OllamaError>(
                    OllamaError::ParseUrl(error),
                ),
            },
    {
        OllamaClient::from_parsed(parse_url(url))
    }

    /// The same client with another embedding model.
    pub fn with_embed_model(self, model: &str) -> (client: OllamaClient)
        ensures
            client.address() == self.address(),
            client.model() == model@,
    {
        OllamaClient { url: self.url, embed_model: model.to_owned() }
    }

    /// The address of the service.
    pub fn url(&self) -> (address: &url::Url)
        ensures
            *address == self.address(),
    {
        &self.url
    }

    /// The name of the embedding model.
    pub fn embed_model(&self) -> (model: &str)
        ensures
            model@ == self.model(),
    {
        self.embed_model.as_str()
    }

    /// The request that embeds one text.
    pub fn embed_request(&self, text: &str) -> (request: EmbedRequest)
        ensures
            request.model@ == self.model(),
            request.input matches EmbedInput::Single(single) && single@ == text@,
    {
        EmbedRequest { model: self.embed_model.clone(), input: EmbedInput::Single(text.to_owned()) }
    }

    /// The request that embeds several texts at once, in their order. No
    /// texts, no request: the answer is then no embeddings.
    pub fn embed_batch_request(&self, texts: &[String]) -> (request: Option<EmbedRequest>)
        ensures
            texts@.len() == 0 <==> request is None,
            request matches Some(asked) ==> asked.model@ == self.model() && (asked.input matches EmbedInput::Multiple(
                several,
            ) && text_views(several@) == text_views(texts@)),
    {
        if texts.len() == 0 {
            None
        } else {
            Some(
                EmbedRequest {
                    model: self.embed_model.clone(),
                    input: EmbedInput::Multiple(copy_texts(texts)),
                },
            )
        }
    }
}

/// Holds the answer of the service to its request: an answer counts only
/// where it brings one embedding for each of the `asked` texts, and is a
/// failure of the whole request otherwise. A failed request stays the
/// failure it is.
pub fn checked_embeddings(asked: usize, answer: Result<Vec<Vec<u32>>, OllamaError>) -> (checked:
    Result<Vec<Vec<u32>>, OllamaError>)
    ensures
        match answer {
            Err(error) => checked == Err::<Vec<Vec<u32>>, OllamaError>(error),
            Ok(embeddings) => if embeddings@.len() == asked {
                checked == Ok::<Vec<Vec<u32>>, OllamaError>(embeddings)
            } else {
                checked matches Err(OllamaError::Request(message)) && message@
                    == WRONG_EMBEDDING_COUNT@
            },
        },
{
    match answer {
        Err(error) => Err(error),
        Ok(embeddings) => {
            if embeddings.len() == asked {
                Ok(embeddings)
            } else {
                Err(OllamaError::Request(WRONG_EMBEDDING_COUNT.to_owned()))
            }
        },
    }
}

/// The embedding of a single text out of the answer of the service: the one
/// embedding that the answer holds. An answer with none, or with more than
/// one, is a failure of the request.
pub fn single_embedding(answer: Result<Vec<Vec<u32>>, OllamaError>) -> (embedding: Result<
    Vec<u32>,
    OllamaError,
>)
    ensures
        match answer {
            Err(error) => embedding == Err::<Vec<u32>, OllamaError>(error),
            Ok(embeddings) => if embeddings@.len() == 1 {
                embedding matches Ok(only) && only@ == embeddings@[0]@
            } else {
                embedding matches Err(OllamaError::Request(message)) && message@
                    == WRONG_EMBEDDING_COUNT@
            },
        },
{
    match checked_embeddings(1, answer) {
        Err(error) => Err(error),
        Ok(embeddings) => {
            let mut embeddings = embeddings;
            Ok(embeddings.swap_remove(0))
        },
    }
}

} // verus!
