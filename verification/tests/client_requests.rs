use dicomweb::Error;
use dicomweb::client::DICOMWebClientBlocking;
use dicomweb::client::DICOMWebClientBuilderAsync;
use dicomweb::client::DICOMWebClientBuilderBlocking;
use dicomweb::client::DICOMwebClientReqwest;
use dicomweb::client::HttpMethod;

#[test]
fn qido_search_url_scenario() {
    let mut client = DICOMwebClientReqwest::new("http://localhost:8042/dicom-web");
    let qb = client.search_studies().patient_name("*").limit(10);
    assert_eq!(qb.headers.len(), 1);
    assert_eq!(qb.headers[0].0, "Accept");
    assert_eq!(qb.headers[0].1, "application/dicom+json");
    let url = qb.build_url();
    assert_eq!(url, "http://localhost:8042/dicom-web/studies?PatientName=%2A&limit=10");
}

#[test]
fn query_parameters_keep_insertion_order_and_last_write_wins() {
    let mut client = DICOMwebClientReqwest::new("http://h");
    let qb = client
        .search_studies()
        .limit(5)
        .patient_name("Doe*")
        .offset(20)
        .limit(7);
    let url = qb.build_url();
    assert_eq!(url, "http://h/studies?limit=7&PatientName=Doe%2A&offset=20");
}

#[test]
fn retrieve_instance_request_shape() {
    let mut client = DICOMwebClientReqwest::new("http://h");
    let qb = client.retrieve_instance("1.2", "3.4", "5.6");
    assert!(matches!(qb.method, HttpMethod::Get));
    assert_eq!(qb.url, "http://h/studies/1.2/series/3.4/instances/5.6");
    assert_eq!(qb.headers[0].0, "Accept");
    assert_eq!(qb.headers[0].1, "multipart/related; type=\"application/dicom\"");
}

#[test]
fn store_request_declares_the_boundary_it_frames_with() {
    let mut client = DICOMwebClientReqwest::new("http://h");
    let qb = client.store_instances();
    assert!(matches!(qb.method, HttpMethod::Post));
    assert_eq!(qb.url, "http://h/studies");
    assert_eq!(qb.headers[0].0, "content-type");
    let declared = &qb.headers[0].1;
    let boundary = qb.get_boundary();
    assert!(declared.ends_with(boundary.as_str()));
    assert!(declared.starts_with("multipart/related; type=\"application/dicom\"; boundary="));

    // the body framed by the builder uses the same token
    let qb = qb.add_instance_buffer(vec![1, 2, 3, 4]);
    let body = qb.body.clone().unwrap();
    let parts = dicomweb::multipart::parse_multipart_body(&body, boundary.as_str()).unwrap();
    assert_eq!(parts, vec![vec![1, 2, 3, 4]]);
}

#[test]
fn builder_accepts_absolute_urls() {
    let client = DICOMWebClientBuilderAsync::new("http://localhost:8042").build().unwrap();
    assert_eq!(client.url, "http://localhost:8042");
    let client = DICOMWebClientBuilderBlocking::new("https://pacs.example").build().unwrap();
    assert_eq!(client.url, "https://pacs.example");
}

#[test]
fn builder_rejects_malformed_base_urls() {
    match DICOMWebClientBuilderAsync::new("localhost:8042").build() {
        Err(err) => assert_eq!(err, Error::InvalidBaseUrl),
        Ok(_) => panic!("a URL without a scheme must be refused"),
    }
    match DICOMWebClientBuilderBlocking::new("http://").build() {
        Err(err) => assert_eq!(err, Error::InvalidBaseUrl),
        Ok(_) => panic!("a URL without an authority must be refused"),
    }
}

#[test]
fn legacy_finders_build_the_same_paths() {
    let client = DICOMWebClientBlocking::builder("http://h").build().unwrap();
    assert_eq!(client.find_studies().url, "http://h/studies");
    assert_eq!(client.find_series("1.2").url, "http://h/studies/1.2/series");
    assert_eq!(client.find_instances("1.2", "3.4").url, "http://h/studies/1.2/series/3.4/instances");
    assert_eq!(
        client.get_instance("1.2", "3.4", "5.6").url,
        "http://h/studies/1.2/series/3.4/instances/5.6"
    );
}

#[test]
fn percent_encoding_escapes_reserved_bytes() {
    assert_eq!(dicomweb::client::percent_encode("abc-XYZ_0.9~"), "abc-XYZ_0.9~");
    assert_eq!(dicomweb::client::percent_encode("*"), "%2A");
    assert_eq!(dicomweb::client::percent_encode("a b/c"), "a%20b%2Fc");
}

#[test]
fn proxy_and_default_headers_are_recorded() {
    let mut client = DICOMwebClientReqwest::new("http://h")
        .default_headers("apikey", "SECRET-REDACTED")
        .proxy(String::from("http://proxy.local:3128"));
    assert_eq!(client.default_headers.len(), 1);
    assert_eq!(client.default_headers[0].0, "apikey");
    assert_eq!(client.proxy_url.as_deref(), Some("http://proxy.local:3128"));

    // every request opens with the default headers
    let qb = client.search_studies();
    assert_eq!(qb.headers.len(), 2);
    assert_eq!(qb.headers[0].0, "apikey");
    assert_eq!(qb.headers[1].0, "Accept");
    let qb = client.store_instances();
    assert_eq!(qb.headers[0].0, "apikey");
    assert_eq!(qb.headers[1].0, "content-type");
}

#[test]
fn boundary_extraction_takes_the_last_marker() {
    let ct = "multipart/related; type=\"application/dicom\"; boundary=tok-123";
    assert_eq!(dicomweb::client::extract_boundary(ct).as_deref(), Some("tok-123"));
    assert_eq!(dicomweb::client::extract_boundary("text/plain"), None);
    assert_eq!(
        dicomweb::client::extract_boundary("a; boundary=x; boundary=y").as_deref(),
        Some("y"),
    );
}

#[test]
fn dicom_json_content_type_is_recognised() {
    assert!(dicomweb::client::content_type_is_dicom_json("application/dicom+json"));
    assert!(dicomweb::client::content_type_is_dicom_json("application/dicom+json; charset=utf-8"));
    assert!(!dicomweb::client::content_type_is_dicom_json("application/json"));
}
