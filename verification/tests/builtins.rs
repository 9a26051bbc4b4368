use asp_ls::builtins::{ado_member_doc, member_doc, object_doc};

#[test]
fn member_doc_formats_title_and_text() {
    assert_eq!(
        member_doc("Response", "Write"),
        Some("**`Response.Write(value)`**\n\nWrites a string to the HTTP response body.".to_string())
    );
    assert_eq!(
        member_doc("request", "querystring"),
        Some("**`Request.QueryString(name)`**\n\nReads a value from the URL query string.".to_string())
    );
    assert_eq!(
        member_doc("Application", "Contents"),
        Some("**`Application.Contents(name)`**\n\nCollection of all values stored application-wide.".to_string())
    );
}

#[test]
fn member_doc_ignores_ascii_case() {
    assert_eq!(member_doc("RESPONSE", "wRiTe"), member_doc("response", "write"));
    assert!(member_doc("ReSpOnSe", "REDIRECT").is_some());
}

#[test]
fn member_doc_is_none_for_unknown_pairs() {
    assert_eq!(member_doc("rs", "Write"), None);
    assert_eq!(member_doc("Response", "MoveNext"), None);
    assert_eq!(member_doc("", ""), None);
}

#[test]
fn object_doc_covers_the_five_intrinsic_objects() {
    assert_eq!(
        object_doc("server"),
        Some("**`Server`**\n\nIntrinsic ASP utility object. Common members: `CreateObject`, `MapPath`, `HTMLEncode`, `URLEncode`, `Execute`, `Transfer`.".to_string())
    );
    for name in ["Response", "Request", "Server", "Session", "Application"] {
        assert!(object_doc(name).is_some(), "{name}");
        assert_eq!(object_doc(name), object_doc(&name.to_ascii_uppercase()));
    }
    assert_eq!(object_doc("Recordset"), None);
}

#[test]
fn ado_member_doc_prefixes_adodb() {
    assert_eq!(
        ado_member_doc("MoveNext"),
        Some("**`ADODB.Recordset.MoveNext`**\n\nMoves to the next record; check `EOF` afterwards.".to_string())
    );
    assert_eq!(
        ado_member_doc("BEGINTRANS"),
        Some("**`ADODB.Connection.BeginTrans`**\n\nBegins a transaction.".to_string())
    );
    assert_eq!(ado_member_doc("Write"), None);
}

#[test]
fn object_docs_give_the_title_and_text_of_each_object() {
    assert_eq!(
        asp_ls::builtins::object_doc("SESSION"),
        Some("**`Session`**\n\nPer-user state that persists across requests. Common members: `SessionID`, `Timeout`, `Abandon`, `Contents`.".to_string())
    );
    assert_eq!(
        asp_ls::builtins::object_doc("application"),
        Some("**`Application`**\n\nApplication-wide shared state. Common members: `Lock`, `Unlock`, `Contents`.".to_string())
    );
    assert_eq!(asp_ls::builtins::object_doc("rs"), None);
}
