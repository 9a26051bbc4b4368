//! Hover documentation for Classic ASP built-in objects and common ADO members.

use vstd::prelude::*;
use crate::text::{ascii_lower_seq, to_ascii_lowercase};

verus! {

/// `Object.Member` docs for the five intrinsic objects: lowercase object,
/// lowercase member, title, text.
pub const MEMBER_DOCS: [(&'static str, &'static str, &'static str, &'static str); 34] = [
    ("response", "write", "Response.Write(value)", "Writes a string to the HTTP response body."),
    ("response", "redirect", "Response.Redirect(url)", "Sends a 302 redirect to the client and ends processing of the page output."),
    ("response", "end", "Response.End", "Stops processing the page and returns the buffered output."),
    ("response", "buffer", "Response.Buffer = True|False", "Whether output is buffered until the page finishes (must be set before any output)."),
    ("response", "flush", "Response.Flush", "Sends buffered output to the client immediately."),
    ("response", "clear", "Response.Clear", "Erases the buffered output without sending it."),
    ("response", "contenttype", "Response.ContentType = \"text/html\"", "Sets the MIME type of the response."),
    ("response", "charset", "Response.Charset = \"utf-8\"", "Appends the charset name to the Content-Type header."),
    ("response", "cookies", "Response.Cookies(name) = value", "Sets a cookie to send to the client."),
    ("response", "expires", "Response.Expires = minutes", "Minutes before a cached page expires."),
    ("response", "addheader", "Response.AddHeader name, value", "Adds a custom HTTP response header."),
    ("response", "isclientconnected", "Response.IsClientConnected", "True while the client is still connected."),
    ("request", "querystring", "Request.QueryString(name)", "Reads a value from the URL query string."),
    ("request", "form", "Request.Form(name)", "Reads a value from a POSTed form body."),
    ("request", "cookies", "Request.Cookies(name)", "Reads a cookie sent by the client."),
    ("request", "servervariables", "Request.ServerVariables(name)", "Reads a server/CGI variable, e.g. \"REMOTE_ADDR\", \"HTTP_USER_AGENT\"."),
    ("request", "totalbytes", "Request.TotalBytes", "Number of bytes in the request body."),
    ("request", "binaryread", "Request.BinaryRead(count)", "Reads raw bytes from the request body."),
    ("server", "createobject", "Server.CreateObject(progId)", "Creates a COM object, e.g. Server.CreateObject(\"ADODB.Connection\")."),
    ("server", "mappath", "Server.MapPath(virtualPath)", "Maps a virtual path to a physical filesystem path."),
    ("server", "htmlencode", "Server.HTMLEncode(text)", "HTML-escapes a string (&, <, >, quotes)."),
    ("server", "urlencode", "Server.URLEncode(text)", "URL-encodes a string for use in a query string."),
    ("server", "execute", "Server.Execute(path)", "Executes another ASP page, then returns to this one."),
    ("server", "transfer", "Server.Transfer(path)", "Transfers control to another ASP page without returning."),
    ("server", "scripttimeout", "Server.ScriptTimeout = seconds", "Maximum time a script may run before being terminated."),
    ("session", "sessionid", "Session.SessionID", "Unique identifier of the current session."),
    ("session", "timeout", "Session.Timeout = minutes", "Idle minutes before the session is abandoned."),
    ("session", "abandon", "Session.Abandon", "Destroys the session and releases its resources."),
    ("session", "contents", "Session.Contents(name)", "Collection of all values stored in the session."),
    ("session", "codepage", "Session.CodePage = codepage", "Code page used for string conversions, e.g. 65001 for UTF-8."),
    ("session", "lcid", "Session.LCID = localeId", "Locale identifier used for date/number formatting."),
    ("application", "lock", "Application.Lock", "Blocks other clients from modifying Application values."),
    ("application", "unlock", "Application.Unlock", "Releases a previous Application.Lock."),
    ("application", "contents", "Application.Contents(name)", "Collection of all values stored application-wide."),
];

/// Docs for the intrinsic objects themselves: lowercase name, title, text.
pub const OBJECT_DOCS: [(&'static str, &'static str, &'static str); 5] = [
    ("response", "Response", "Intrinsic ASP object for the outgoing HTTP response. Common members: `Write`, `Redirect`, `End`, `Buffer`, `ContentType`, `Cookies`."),
    ("request", "Request", "Intrinsic ASP object for the incoming HTTP request. Common members: `QueryString`, `Form`, `Cookies`, `ServerVariables`."),
    ("server", "Server", "Intrinsic ASP utility object. Common members: `CreateObject`, `MapPath`, `HTMLEncode`, `URLEncode`, `Execute`, `Transfer`."),
    ("session", "Session", "Per-user state that persists across requests. Common members: `SessionID`, `Timeout`, `Abandon`, `Contents`."),
    ("application", "Application", "Application-wide shared state. Common members: `Lock`, `Unlock`, `Contents`."),
];

/// Docs for distinctive ADO members that are unlikely to collide with user
/// code: lowercase member, title, text.
pub const ADO_MEMBER_DOCS: [(&'static str, &'static str, &'static str); 14] = [
    ("movenext", "Recordset.MoveNext", "Moves to the next record; check `EOF` afterwards."),
    ("moveprevious", "Recordset.MovePrevious", "Moves to the previous record; check `BOF` afterwards."),
    ("movefirst", "Recordset.MoveFirst", "Moves to the first record."),
    ("movelast", "Recordset.MoveLast", "Moves to the last record."),
    ("eof", "Recordset.EOF", "True when positioned past the last record (also true for an empty recordset)."),
    ("bof", "Recordset.BOF", "True when positioned before the first record."),
    ("recordcount", "Recordset.RecordCount", "Number of records; -1 with a forward-only cursor."),
    ("addnew", "Recordset.AddNew", "Starts a new record; call `Update` to save it."),
    ("connectionstring", "Connection.ConnectionString", "OLE DB connection string used by `Open`."),
    ("begintrans", "Connection.BeginTrans", "Begins a transaction."),
    ("committrans", "Connection.CommitTrans", "Commits the current transaction."),
    ("rollbacktrans", "Connection.RollbackTrans", "Rolls back the current transaction."),
    ("absolutepage", "Recordset.AbsolutePage", "1-based page number of the current record (requires `PageSize`)."),
    ("pagesize", "Recordset.PageSize", "Records per page, used for paging with `AbsolutePage`."),
];

/// The markdown shown for an entry: the title in bold code, a blank line, the text.
pub open spec fn doc_markdown(prefix: Seq<char>, title: Seq<char>, doc: Seq<char>) -> Seq<char> {
    "**`"@ + prefix + title + "`**\n\n"@ + doc
}

/// Title and text of the first member entry for `object` and `member`.
pub open spec fn member_entry(
    table: Seq<(&'static str, &'static str, &'static str, &'static str)>,
    object: Seq<char>,
    member: Seq<char>,
) -> Option<(Seq<char>, Seq<char>)>
    decreases table.len(),
{
    if table.len() == 0 {
        None
    } else if table[0].0@ == object && table[0].1@ == member {
        Some((table[0].2@, table[0].3@))
    } else {
        member_entry(table.drop_first(), object, member)
    }
}

/// Title and text of the first entry for `name`.
pub open spec fn name_entry(table: Seq<(&'static str, &'static str, &'static str)>, name: Seq<char>) -> Option<
    (Seq<char>, Seq<char>),
>
    decreases table.len(),
{
    if table.len() == 0 {
        None
    } else if table[0].0@ == name {
        Some((table[0].1@, table[0].2@))
    } else {
        name_entry(table.drop_first(), name)
    }
}

pub open spec fn member_doc_spec(object: Seq<char>, member: Seq<char>) -> Option<Seq<char>> {
    match member_entry(MEMBER_DOCS@, ascii_lower_seq(object), ascii_lower_seq(member)) {
        Some((t, d)) => Some(doc_markdown(Seq::empty(), t, d)),
        None => None,
    }
}

pub open spec fn object_doc_spec(name: Seq<char>) -> Option<Seq<char>> {
    match name_entry(OBJECT_DOCS@, ascii_lower_seq(name)) {
        Some((t, d)) => Some(doc_markdown(Seq::empty(), t, d)),
        None => None,
    }
}

pub open spec fn ado_member_doc_spec(member: Seq<char>) -> Option<Seq<char>> {
    match name_entry(ADO_MEMBER_DOCS@, ascii_lower_seq(member)) {
        Some((t, d)) => Some(doc_markdown("ADODB."@, t, d)),
        None => None,
    }
}

fn markdown(prefix: &str, title: &str, doc: &str) -> (r: String)
    ensures
        r@ == doc_markdown(prefix@, title@, doc@),
{
    let mut r = String::from_str("**`");
    r.append(prefix);
    r.append(title);
    r.append("`**\n\n");
    r.append(doc);
    r
}

fn eq_str(s: &String, lit: &str) -> (r: bool)
    ensures
        r == (s@ == lit@),
{
    *s == lit.to_string()
}

/// Docs for `Object.Member` where the qualifier is one of the five intrinsic objects.
pub fn member_doc(object: &str, member: &str) -> (r: Option<String>)
    ensures
        match r {
            Some(s) => member_doc_spec(object@, member@) == Some(s@),
            None => member_doc_spec(object@, member@) is None,
        },
{
    let lo = to_ascii_lowercase(object);
    let lm = to_ascii_lowercase(member);
    let ghost table = MEMBER_DOCS@;
    let mut i: usize = 0;
    proof {
        assert(table.subrange(0, table.len() as int) =~= table);
    }
    while i < MEMBER_DOCS.len()
        invariant
            i <= table.len(),
            table == MEMBER_DOCS@,
            lo@ == ascii_lower_seq(object@),
            lm@ == ascii_lower_seq(member@),
            member_entry(table.subrange(i as int, table.len() as int), lo@, lm@)
                == member_entry(table, lo@, lm@),
        decreases table.len() - i,
    {
        let e = MEMBER_DOCS[i];
        proof {
            let rest = table.subrange(i as int, table.len() as int);
            assert(rest[0] == e);
            assert(rest.drop_first() =~= table.subrange(i + 1, table.len() as int));
        }
        if eq_str(&lo, e.0) && eq_str(&lm, e.1) {
            let r = markdown("", e.2, e.3);
            proof {
                let rest = table.subrange(i as int, table.len() as int);
                assert(member_entry(rest, lo@, lm@) == Some((e.2@, e.3@)));
                assert(""@ =~= Seq::<char>::empty()) by {
                    reveal_strlit("");
                }
            }
            return Some(r);
        }
        i += 1;
    }
    proof {
        assert(table.subrange(i as int, table.len() as int) =~= Seq::<(&'static str, &'static str, &'static str, &'static str)>::empty());
    }
    None
}

fn name_doc(
    table: &[(&'static str, &'static str, &'static str)],
    name: &str,
    prefix: &str,
) -> (r: Option<String>)
    ensures
        match r {
            Some(s) => exists|t: Seq<char>, d: Seq<char>|
                name_entry(table@, ascii_lower_seq(name@)) == Some((t, d)) && s@ == doc_markdown(prefix@, t, d),
            None => name_entry(table@, ascii_lower_seq(name@)) is None,
        },
{
    let ln = to_ascii_lowercase(name);
    let mut i: usize = 0;
    proof {
        assert(table@.subrange(0, table@.len() as int) =~= table@);
    }
    while i < table.len()
        invariant
            i <= table@.len(),
            ln@ == ascii_lower_seq(name@),
            name_entry(table@.subrange(i as int, table@.len() as int), ln@) == name_entry(table@, ln@),
        decreases table@.len() - i,
    {
        let e = table[i];
        proof {
            let rest = table@.subrange(i as int, table@.len() as int);
            assert(rest[0] == e);
            assert(rest.drop_first() =~= table@.subrange(i + 1, table@.len() as int));
        }
        if eq_str(&ln, e.0) {
            let r = markdown(prefix, e.1, e.2);
            proof {
                let rest = table@.subrange(i as int, table@.len() as int);
                assert(name_entry(rest, ln@) == Some((e.1@, e.2@)));
                assert(name_entry(table@, ln@) == Some((e.1@, e.2@)));
                assert(r@ == doc_markdown(prefix@, e.1@, e.2@));
            }
            return Some(r);
        }
        i += 1;
    }
    proof {
        assert(table@.subrange(i as int, table@.len() as int) =~= Seq::<(&'static str, &'static str, &'static str)>::empty());
    }
    None
}

/// Docs for the intrinsic objects themselves.
pub fn object_doc(name: &str) -> (r: Option<String>)
    ensures
        match r {
            Some(s) => object_doc_spec(name@) == Some(s@),
            None => object_doc_spec(name@) is None,
        },
{
    let r = name_doc(&OBJECT_DOCS, name, "");
    proof {
        assert(""@ =~= Seq::<char>::empty()) by {
            reveal_strlit("");
        }
    }
    r
}

/// Heuristic docs for distinctive ADO members on arbitrary qualifiers
/// (`rs.MoveNext`, `conn.BeginTrans`, ...). Only members that are unlikely
/// to collide with user code are listed.
pub fn ado_member_doc(member: &str) -> (r: Option<String>)
    ensures
        match r {
            Some(s) => ado_member_doc_spec(member@) == Some(s@),
            None => ado_member_doc_spec(member@) is None,
        },
{
    name_doc(&ADO_MEMBER_DOCS, member, "ADODB.")
}

} // verus!
