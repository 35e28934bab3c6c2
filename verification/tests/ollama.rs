use noema_core::ollama::{
    checked_embeddings, single_embedding, EmbedInput, OllamaClient, OllamaError, DEFAULT_BASE_URL,
    DEFAULT_EMBED_MODEL, WRONG_EMBEDDING_COUNT,
};

#[test]
fn client_from_the_default_url() {
    let client = OllamaClient::from_url(DEFAULT_BASE_URL).unwrap();
    assert_eq!(client.url().as_str(), "http://localhost:11434/");
    assert_eq!(client.url().port(), Some(11434));
    assert_eq!(client.embed_model(), DEFAULT_EMBED_MODEL);
    assert_eq!(client.embed_model(), "nomic-embed-text");
}

#[test]
fn client_rejects_what_is_no_url() {
    match OllamaClient::from_url("not a url") {
        Err(OllamaError::ParseUrl(e)) => assert_eq!(e, url::ParseError::RelativeUrlWithoutBase),
        other => panic!("unexpected: {:?}", other),
    }
    assert!(matches!(
        OllamaClient::from_url("http://[::1"),
        Err(OllamaError::ParseUrl(url::ParseError::InvalidIpv6Address))
    ));
}

#[test]
fn client_takes_another_model() {
    let client = OllamaClient::from_url("http://example.com:1234").unwrap().with_embed_model("all-minilm");
    assert_eq!(client.embed_model(), "all-minilm");
    assert_eq!(client.url().host_str(), Some("example.com"));
}

#[test]
fn embed_request_names_model_and_text() {
    let client = OllamaClient::from_url(DEFAULT_BASE_URL).unwrap();
    let request = client.embed_request("hello");
    assert_eq!(request.model, "nomic-embed-text");
    match request.input {
        EmbedInput::Single(text) => assert_eq!(text, "hello"),
        other => panic!("unexpected: {:?}", other),
    }
}

#[test]
fn embed_batch_request_keeps_the_order() {
    let client = OllamaClient::from_url(DEFAULT_BASE_URL).unwrap().with_embed_model("m");
    assert!(client.embed_batch_request(&[]).is_none());
    let request = client.embed_batch_request(&["a".to_string(), "b".to_string()]).unwrap();
    assert_eq!(request.model, "m");
    match request.input {
        EmbedInput::Multiple(texts) => assert_eq!(texts, vec!["a", "b"]),
        other => panic!("unexpected: {:?}", other),
    }
}

#[test]
fn answer_with_one_embedding_per_text_is_kept() {
    let answer = vec![vec![1, 2], vec![3]];
    assert_eq!(checked_embeddings(2, Ok(answer.clone())).unwrap(), answer);
    assert_eq!(checked_embeddings(0, Ok(vec![])).unwrap(), Vec::<Vec<u32>>::new());
}

#[test]
fn answer_with_another_count_fails_the_request() {
    for (asked, answer) in [(2, vec![vec![1]]), (1, vec![]), (1, vec![vec![1], vec![2]]), (0, vec![vec![1]])] {
        match checked_embeddings(asked, Ok(answer)) {
            Err(OllamaError::Request(m)) => assert_eq!(m, WRONG_EMBEDDING_COUNT),
            other => panic!("unexpected: {:?}", other),
        }
    }
}

#[test]
fn failed_request_stays_the_failure_it_is() {
    match checked_embeddings(2, Err(OllamaError::Request("timeout".to_string()))) {
        Err(OllamaError::Request(m)) => assert_eq!(m, "timeout"),
        other => panic!("unexpected: {:?}", other),
    }
    assert!(matches!(
        single_embedding(Err(OllamaError::ParseUrl(url::ParseError::EmptyHost))),
        Err(OllamaError::ParseUrl(url::ParseError::EmptyHost))
    ));
}

#[test]
fn single_embedding_is_the_only_one() {
    assert_eq!(single_embedding(Ok(vec![vec![5, 6]])).unwrap(), vec![5, 6]);
    for answer in [vec![], vec![vec![1, 2], vec![3]]] {
        match single_embedding(Ok(answer)) {
            Err(OllamaError::Request(m)) => assert_eq!(m, WRONG_EMBEDDING_COUNT),
            other => panic!("unexpected: {:?}", other),
        }
    }
}

#[test]
fn client_from_a_parsed_address() {
    let client = OllamaClient::from_parsed(url::Url::parse("http://10.0.0.2:11434")).unwrap();
    assert_eq!(client.url().host_str(), Some("10.0.0.2"));
    assert_eq!(client.embed_model(), "nomic-embed-text");
    assert!(matches!(
        OllamaClient::from_parsed(Err(url::ParseError::EmptyHost)),
        Err(OllamaError::ParseUrl(url::ParseError::EmptyHost))
    ));
}
