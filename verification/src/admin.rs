//! The management interface: an HTTP service that shows and changes the bypass list.
//!
//! - `GET /bypass` shows the list.
//! - `POST /bypass/{domain}` adds a domain.
//! - `DELETE /bypass/{domain}` removes a domain.

use crate::bypass::BypassList;
use crate::bypass;
use crate::text;
use vstd::prelude::*;

verus! {

// ---------------------------------------------------------------------------
// Outside functions
// ---------------------------------------------------------------------------

/// The text that `String::from_utf8_lossy` makes of bytes.
pub uninterp spec fn lossy_text(bytes: Seq<u8>) -> Seq<char>;

/// `String::from_utf8_lossy`. Of bytes that are UTF-8 it makes the text that they encode. What it
/// puts in the place of other bytes is left to the name of its result.
#[verifier::external_body]
fn from_utf8_lossy(bytes: &Vec<u8>) -> (r: String)
    ensures
        r@ == lossy_text(bytes@),
        vstd::utf8::valid_utf8(bytes@) ==> r@ == vstd::utf8::decode_utf8(bytes@),
{
    String::from_utf8_lossy(bytes).into_owned()
}

/// `serde_json::Error`. It is never looked into.
#[verifier::external_type_specification]
#[verifier::external_body]
pub struct ExJsonError(serde_json::Error);

/// The hexadecimal digit `d`, in small letters.
pub open spec fn hex_digit(d: int) -> char {
    if d < 10 {
        (48 + d) as char
    } else {
        (87 + d) as char
    }
}

/// A character inside a JSON string: quote, backslash and the control characters below the space
/// are escaped, any other stands as it is.
pub open spec fn json_char(c: char) -> Seq<char> {
    if c == '"' || c == '\\' {
        seq!['\\', c]
    } else if c == '\u{8}' {
        seq!['\\', 'b']
    } else if c == '\u{9}' {
        seq!['\\', 't']
    } else if c == '\u{a}' {
        seq!['\\', 'n']
    } else if c == '\u{c}' {
        seq!['\\', 'f']
    } else if c == '\u{d}' {
        seq!['\\', 'r']
    } else if ' ' <= c {
        seq![c]
    } else {
        seq!['\\', 'u', '0', '0', hex_digit(c as int / 16), hex_digit(c as int % 16)]
    }
}

/// The characters of a text inside a JSON string.
pub open spec fn json_chars(s: Seq<char>) -> Seq<char>
    decreases s.len(),
{
    if s.len() == 0 {
        Seq::empty()
    } else {
        json_chars(s.drop_last()) + json_char(s.last())
    }
}

/// A text as a JSON string.
pub open spec fn json_string(s: Seq<char>) -> Seq<char> {
    seq!['"'] + json_chars(s) + seq!['"']
}

/// Texts as JSON strings, with commas between them.
pub open spec fn json_items(list: Seq<Seq<char>>) -> Seq<char>
    decreases list.len(),
{
    if list.len() == 0 {
        Seq::empty()
    } else if list.len() == 1 {
        json_string(list[0])
    } else {
        json_items(list.drop_last()) + seq![','] + json_string(list.last())
    }
}

/// Texts as a JSON array, without spaces.
pub open spec fn json_array(list: Seq<Seq<char>>) -> Seq<char> {
    seq!['['] + json_items(list) + seq![']']
}

/// `serde_json::to_string` on a list of strings. It succeeds: neither strings nor a list of them
/// can fail to be written. The text is the JSON array of the strings, in its shortest form.
#[verifier::external_body]
fn json_text(list: &Vec<String>) -> (r: Result<String, serde_json::Error>)
    ensures
        r is Ok && r->Ok_0@ == json_array(text::texts(list@)),
{
    serde_json::to_string(list)
}

// ---------------------------------------------------------------------------
// Requests
// ---------------------------------------------------------------------------

/// What a request asks for.
pub enum AdminCommand {
    /// Show the list.
    Show,
    /// Add a domain.
    Add { domain: String },
    /// Remove a domain.
    Remove { domain: String },
    /// Something that is not there.
    Unknown,
    /// Nothing: the request names no method and path.
    Malformed,
}

/// What an [`AdminCommand`] says.
pub enum CommandView {
    Show,
    Add { domain: Seq<char> },
    Remove { domain: Seq<char> },
    Unknown,
    Malformed,
}

impl View for AdminCommand {
    type V = CommandView;

    open spec fn view(&self) -> CommandView {
        match self {
            AdminCommand::Show => CommandView::Show,
            AdminCommand::Add { domain } => CommandView::Add { domain: domain@ },
            AdminCommand::Remove { domain } => CommandView::Remove { domain: domain@ },
            AdminCommand::Unknown => CommandView::Unknown,
            AdminCommand::Malformed => CommandView::Malformed,
        }
    }
}

/// What a request asks for: its first line names the method and the path.
pub open spec fn command_of(request: Seq<char>) -> CommandView {
    let words = text::words(text::before_char(request, '\n'));
    let prefix = "/bypass/"@;
    if words.len() < 2 {
        CommandView::Malformed
    } else if words[0] == "GET"@ && words[1] == "/bypass"@ {
        CommandView::Show
    } else if words[0] == "POST"@ && prefix.is_prefix_of(words[1]) {
        CommandView::Add { domain: words[1].skip(prefix.len() as int) }
    } else if words[0] == "DELETE"@ && prefix.is_prefix_of(words[1]) {
        CommandView::Remove { domain: words[1].skip(prefix.len() as int) }
    } else {
        CommandView::Unknown
    }
}

/// What `request` asks for.
pub fn parse_request(request: &str) -> (r: AdminCommand)
    ensures
        r@ == command_of(request@),
{
    let v = text::chars_of(request);
    let end = text::index_of(&v, 0, '\n');
    assert(v@.skip(0) =~= v@);
    let line = text::slice_text(request, 0, end);
    assert(line@ =~= text::before_char(request@, '\n'));
    let words = text::split_words(line.as_str());
    if words.len() < 2 {
        return AdminCommand::Malformed;
    }
    let method = words[0].as_str();
    let path = words[1].as_str();
    if text::same_text(path, "/bypass") && text::same_text(method, "GET") {
        proof {
            reveal_strlit("GET");
            reveal_strlit("POST");
            reveal_strlit("DELETE");
        }
        return AdminCommand::Show;
    }
    let p = text::chars_of(path);
    let prefix = text::chars_of("/bypass/");
    assert(p@.skip(0) =~= p@);
    if !text::starts_at(&p, 0, &prefix) {
        return AdminCommand::Unknown;
    }
    let domain = text::slice_text(path, prefix.len(), p.len());
    assert(domain@ =~= path@.skip(prefix@.len() as int));
    if text::same_text(method, "POST") {
        AdminCommand::Add { domain }
    } else if text::same_text(method, "DELETE") {
        AdminCommand::Remove { domain }
    } else {
        AdminCommand::Unknown
    }
}

// ---------------------------------------------------------------------------
// Answers
// ---------------------------------------------------------------------------

/// An answer with a body of JSON. The length is that of the body in bytes.
pub open spec fn ok_response(body: Seq<char>) -> Seq<char> {
    "HTTP/1.1 200 OK\r\nContent-Type: application/json\r\nContent-Length: "@ + text::decimal(
        vstd::utf8::encode_utf8(body).len(),
    ) + "\r\n\r\n"@ + body
}

/// The answer to a request for the list, given the JSON that was made of it.
pub open spec fn listing(json: Option<Seq<char>>) -> Seq<char> {
    ok_response(
        match json {
            Some(body) => body,
            None => "[]"@,
        },
    )
}

/// The answer to a command, when `list` is the list.
pub open spec fn answer(command: CommandView, list: Seq<Seq<char>>) -> Seq<char> {
    match command {
        CommandView::Show => listing(Some(json_array(list))),
        CommandView::Add { domain } => if domain.len() == 0 {
            "HTTP/1.1 400 Bad Request\r\n\r\n{\"error\":\"empty domain\"}"@
        } else {
            ok_response("{\"added\":\""@ + domain + "\"}"@)
        },
        CommandView::Remove { domain } => if list.contains(domain) {
            ok_response("{\"removed\":true}"@)
        } else {
            ok_response("{\"removed\":false}"@)
        },
        CommandView::Unknown => "HTTP/1.1 404 Not Found\r\n\r\n"@,
        CommandView::Malformed => "HTTP/1.1 400 Bad Request\r\n\r\n"@,
    }
}

/// The list after a command.
pub open spec fn list_after(command: CommandView, list: Seq<Seq<char>>) -> Seq<Seq<char>> {
    match command {
        CommandView::Add { domain } => if domain.len() == 0 || list.contains(domain) {
            list
        } else {
            list.push(domain)
        },
        CommandView::Remove { domain } => list.filter(bypass::other_than(domain)),
        _ => list,
    }
}

/// What [`ok_response`] says.
fn build_ok_response(body: &str) -> (r: String)
    ensures
        r@ == ok_response(body@),
{
    let length = body.as_bytes().len();
    let mut out = "HTTP/1.1 200 OK\r\nContent-Type: application/json\r\nContent-Length: ".to_owned();
    out.append(text::decimal_text(length as u64).as_str());
    out.append("\r\n\r\n");
    out.append(body);
    out
}

/// The answer to a request for the list, given the JSON that was made of it, if any was.
pub fn list_response(json: Option<String>) -> (r: String)
    ensures
        r@ == listing(
            match json {
                Some(body) => Some(body@),
                None => None,
            },
        ),
{
    match json {
        Some(body) => build_ok_response(body.as_str()),
        None => build_ok_response("[]"),
    }
}

/// Does what `command` says, and gives the answer.
pub fn apply(command: AdminCommand, bypass: &mut BypassList) -> (r: String)
    ensures
        r@ == answer(command@, old(bypass).listed()),
        final(bypass).listed() == list_after(command@, old(bypass).listed()),
        old(bypass).well_formed(),
        final(bypass).well_formed(),
{
    proof {
        use_type_invariant(&*bypass);
    }
    match command {
        AdminCommand::Show => {
            let json = match json_text(bypass.domains()) {
                Ok(body) => Some(body),
                Err(_) => None,
            };
            list_response(json)
        },
        AdminCommand::Add { domain } => {
            if domain.as_str().is_empty() {
                "HTTP/1.1 400 Bad Request\r\n\r\n{\"error\":\"empty domain\"}".to_owned()
            } else {
                let mut body = "{\"added\":\"".to_owned();
                body.append(domain.as_str());
                body.append("\"}");
                bypass.insert(domain);
                build_ok_response(body.as_str())
            }
        },
        AdminCommand::Remove { domain } => {
            if bypass.remove(domain.as_str()) {
                build_ok_response("{\"removed\":true}")
            } else {
                build_ok_response("{\"removed\":false}")
            }
        },
        AdminCommand::Unknown => "HTTP/1.1 404 Not Found\r\n\r\n".to_owned(),
        AdminCommand::Malformed => "HTTP/1.1 400 Bad Request\r\n\r\n".to_owned(),
    }
}

/// Takes a request as it came, does what it says, and gives the answer.
pub fn handle(request: &Vec<u8>, bypass: &mut BypassList) -> (r: String)
    ensures
        ({
            let command = command_of(lossy_text(request@));
            let list = old(bypass).listed();
            &&& r@ == answer(command, list)
            &&& final(bypass).listed() == list_after(command, list)
        }),
        vstd::utf8::valid_utf8(request@) ==> {
            let command = command_of(vstd::utf8::decode_utf8(request@));
            let list = old(bypass).listed();
            &&& r@ == answer(command, list)
            &&& final(bypass).listed() == list_after(command, list)
        },
        old(bypass).well_formed(),
        final(bypass).well_formed(),
{
    let request = from_utf8_lossy(request);
    apply(parse_request(request.as_str()), bypass)
}

// ---------------------------------------------------------------------------
// Laws
// ---------------------------------------------------------------------------

/// The first line of a request names its method and its path.
proof fn lemma_first_line(method: Seq<char>, path: Seq<char>, rest: Seq<char>)
    requires
        text::is_word(method),
        text::is_word(path),
        rest.len() == 0 || text::is_white_space(rest[0]),
    ensures
        ({
            let words = text::words(text::before_char(method + seq![' '] + path + rest, '\n'));
            words.len() >= 2 && words[0] == method && words[1] == path
        }),
{
    let p = text::equals('\n');
    let head = method + seq![' '] + path;
    let request = head + rest;
    let k = text::first_of(rest, '\n') as int;
    text::lemma_first_where_holds(rest, p);
    assert forall|j: int| 0 <= j < head.len() + k implies !p(#[trigger] request[j]) by {
        if j < method.len() {
            assert(request[j] == method[j]);
        } else if method.len() < j < head.len() {
            assert(request[j] == path[j - method.len() - 1]);
        } else if j >= head.len() {
            assert(request[j] == rest[j - head.len()]);
        }
    }
    if k < rest.len() {
        assert(request[head.len() + k] == rest[k]);
    }
    text::lemma_first_where(request, p, head.len() + k);
    let end = rest.take(k);
    let line = request.take(head.len() + k);
    let after_method = seq![' '] + (path + end);
    assert(line =~= method + after_method);
    text::lemma_first_word(method, after_method);
    text::lemma_space_before_words(' ', path + end);
    text::lemma_first_word(path, end);
}

/// `POST /bypass/{domain}` asks to add the domain, and `DELETE /bypass/{domain}` to remove it,
/// whatever follows on the line and after it.
pub proof fn law_request_names_the_domain(domain: Seq<char>, rest: Seq<char>)
    requires
        forall|i: int| 0 <= i < domain.len() ==> !text::is_white_space(#[trigger] domain[i]),
        rest.len() == 0 || text::is_white_space(rest[0]),
    ensures
        command_of("POST"@ + seq![' '] + ("/bypass/"@ + domain) + rest) == (CommandView::Add {
            domain,
        }),
        command_of("DELETE"@ + seq![' '] + ("/bypass/"@ + domain) + rest) == (CommandView::Remove {
            domain,
        }),
{
    reveal_strlit("GET");
    reveal_strlit("POST");
    reveal_strlit("DELETE");
    reveal_strlit("/bypass/");
    let prefix = "/bypass/"@;
    let path = prefix + domain;
    assert forall|i: int| 0 <= i < path.len() implies !text::is_white_space(#[trigger] path[i]) by {
        if i >= prefix.len() {
            assert(path[i] == domain[i - prefix.len()]);
        }
    }
    assert(path.subrange(0, prefix.len() as int) =~= prefix);
    assert(path.skip(prefix.len() as int) =~= domain);
    assert("POST"@[0] == 'P');
    assert("DELETE"@[0] == 'D');
    assert("GET"@[0] == 'G');
    lemma_first_line("POST"@, path, rest);
    lemma_first_line("DELETE"@, path, rest);
}

/// `GET /bypass` asks to show the list.
pub proof fn law_request_shows_the_list(rest: Seq<char>)
    requires
        rest.len() == 0 || text::is_white_space(rest[0]),
    ensures
        command_of("GET"@ + seq![' '] + "/bypass"@ + rest) == CommandView::Show,
{
    reveal_strlit("GET");
    reveal_strlit("/bypass");
    lemma_first_line("GET"@, "/bypass"@, rest);
}

/// A domain that was added is on the list, with all that were there before; adding it once more
/// changes nothing.
pub proof fn law_added_domain_is_listed(list: Seq<Seq<char>>, domain: Seq<char>, other: Seq<char>)
    requires
        domain.len() > 0,
    ensures
        ({
            let add = CommandView::Add { domain };
            let after = list_after(add, list);
            &&& after.contains(domain)
            &&& list.contains(other) ==> after.contains(other)
            &&& after.contains(other) ==> other == domain || list.contains(other)
            &&& list_after(add, after) == after
        }),
{
    let after = list_after(CommandView::Add { domain }, list);
    if !list.contains(domain) {
        assert(after[list.len() as int] == domain);
        if list.contains(other) {
            let i = choose|i: int| 0 <= i < list.len() && list[i] == other;
            assert(after[i] == other);
        }
    }
}

/// A domain that was removed is not on the list, and all others that were there still are.
pub proof fn law_removed_domain_is_not_listed(
    list: Seq<Seq<char>>,
    domain: Seq<char>,
    other: Seq<char>,
)
    ensures
        ({
            let after = list_after(CommandView::Remove { domain }, list);
            &&& !after.contains(domain)
            &&& other != domain ==> (after.contains(other) <==> list.contains(other))
        }),
{
    bypass::lemma_filter(list, bypass::other_than(domain));
}

/// Adding a domain that was not on the list and removing it leaves the list as it was, and the
/// removal is reported; to remove it once more is reported as no removal.
pub proof fn law_adding_and_removing_restores_the_list(list: Seq<Seq<char>>, domain: Seq<char>)
    requires
        domain.len() > 0,
        !list.contains(domain),
    ensures
        ({
            let added = list_after(CommandView::Add { domain }, list);
            let remove = CommandView::Remove { domain };
            &&& list_after(remove, added) == list
            &&& answer(remove, added) == ok_response("{\"removed\":true}"@)
            &&& answer(remove, list) == ok_response("{\"removed\":false}"@)
        }),
{
    let p = bypass::other_than(domain);
    let added = list.push(domain);
    law_added_domain_is_listed(list, domain, domain);
    reveal(Seq::filter);
    assert(added.drop_last() =~= list);
    assert(added.last() == domain);
    assert forall|i: int| 0 <= i < list.len() implies p(#[trigger] list[i]) by {
        assert(list.contains(list[i]));
    }
    bypass::lemma_filter_all(list, p);
}

/// Whether JSON needs no escapes for a text: it holds no quote, no backslash and no control
/// character below the space.
pub open spec fn is_plain(s: Seq<char>) -> bool {
    forall|i: int| 0 <= i < s.len() ==> ' ' <= #[trigger] s[i] && s[i] != '"' && s[i] != '\\'
}

proof fn lemma_plain_chars(s: Seq<char>)
    requires
        is_plain(s),
    ensures
        json_chars(s) == s,
    decreases s.len(),
{
    if s.len() > 0 {
        let init = s.drop_last();
        assert forall|i: int| 0 <= i < init.len() implies ' ' <= #[trigger] init[i] && init[i]
            != '"' && init[i] != '\\' by {
            assert(init[i] == s[i]);
        }
        lemma_plain_chars(init);
        assert(json_char(s[s.len() - 1]) == seq![s.last()]);
    }
    assert(json_chars(s) =~= s);
}

/// A name that needs no escapes is shown as it stands, between quotes.
pub proof fn law_plain_name_is_shown_as_it_stands(name: Seq<char>)
    requires
        is_plain(name),
    ensures
        json_string(name) == seq!['"'] + name + seq!['"'],
{
    lemma_plain_chars(name);
}

/// What a request asks for is settled by the first two words of its first line alone: only `POST`
/// adds, only `DELETE` removes, and both name the domain right behind `/bypass/`; only `GET` of
/// `/bypass` itself shows the list. Without two words it is malformed.
pub proof fn law_first_line_settles_the_request(line: Seq<char>, rest: Seq<char>, domain: Seq<char>)
    requires
        !line.contains('\n'),
        rest.len() == 0 || rest[0] == '\n',
    ensures
        ({
            let words = text::words(line);
            let command = command_of(line + rest);
            &&& command is Malformed <==> words.len() < 2
            &&& command is Show <==> words.len() >= 2 && words[0] == seq!['G', 'E', 'T']
                && words[1] == seq!['/', 'b', 'y', 'p', 'a', 's', 's']
            &&& command == (CommandView::Add { domain }) <==> words.len() >= 2 && words[0] == seq![
                'P',
                'O',
                'S',
                'T',
            ] && words[1] == seq!['/', 'b', 'y', 'p', 'a', 's', 's', '/'] + domain
            &&& command == (CommandView::Remove { domain }) <==> words.len() >= 2 && words[0]
                == seq!['D', 'E', 'L', 'E', 'T', 'E'] && words[1] == seq![
                '/',
                'b',
                'y',
                'p',
                'a',
                's',
                's',
                '/',
            ] + domain
        }),
{
    reveal_strlit("GET");
    reveal_strlit("POST");
    reveal_strlit("DELETE");
    reveal_strlit("/bypass");
    reveal_strlit("/bypass/");
    let p = text::equals('\n');
    let request = line + rest;
    assert forall|j: int| 0 <= j < line.len() implies !p(#[trigger] request[j]) by {
        assert(request[j] == line[j]);
        assert(line.contains(line[j]));
    }
    if rest.len() > 0 {
        assert(request[line.len() as int] == rest[0]);
    }
    text::lemma_first_where(request, p, line.len() as int);
    assert(text::before_char(request, '\n') =~= line);
    let get = seq!['G', 'E', 'T'];
    let post = seq!['P', 'O', 'S', 'T'];
    let delete = seq!['D', 'E', 'L', 'E', 'T', 'E'];
    let prefix = seq!['/', 'b', 'y', 'p', 'a', 's', 's', '/'];
    assert("GET"@ =~= get);
    assert("POST"@ =~= post);
    assert("DELETE"@ =~= delete);
    assert("/bypass"@ =~= seq!['/', 'b', 'y', 'p', 'a', 's', 's']);
    assert("/bypass/"@ =~= prefix);
    assert(get.len() == 3 && post.len() == 4 && delete.len() == 6);
    let words = text::words(line);
    if words.len() >= 2 {
        let path = words[1];
        if prefix.is_prefix_of(path) {
            assert(path =~= prefix + path.skip(prefix.len() as int));
        }
        if path == prefix + domain {
            assert(path.subrange(0, prefix.len() as int) =~= prefix);
            assert(path.skip(prefix.len() as int) =~= domain);
        }
    }
}

/// An answer with a body ends with a blank line and the body as it is. Before that it states the
/// number of bytes of the body, in digits.
pub proof fn law_answer_states_the_length_of_its_body(body: Seq<char>)
    ensures
        ({
            let head =
                "HTTP/1.1 200 OK\r\nContent-Type: application/json\r\nContent-Length: "@;
            let all = ok_response(body);
            let bytes = vstd::utf8::encode_utf8(body).len();
            let end = all.len() - body.len() - 4;
            &&& head.len() <= end
            &&& all.take(head.len() as int) == head
            &&& text::unsigned_value(all.subrange(head.len() as int, end), bytes) == Some(bytes)
            &&& all.subrange(end, end + 4) == seq!['\r', '\n', '\r', '\n']
            &&& all.skip(end + 4) == body
        }),
{
    reveal_strlit("\r\n\r\n");
    let head = "HTTP/1.1 200 OK\r\nContent-Type: application/json\r\nContent-Length: "@;
    let bytes = vstd::utf8::encode_utf8(body).len();
    let digits = text::decimal(bytes);
    let all = ok_response(body);
    let end = all.len() - body.len() - 4;
    text::law_decimal_reads_back(bytes, bytes);
    assert(end == head.len() + digits.len());
    assert(all.take(head.len() as int) =~= head);
    assert(all.subrange(head.len() as int, end) =~= digits);
    assert(all.subrange(end, end + 4) =~= seq!['\r', '\n', '\r', '\n']);
    assert(all.skip(end + 4) =~= body);
}

/// Each command has its own answer. To add is answered with the domain whatever was on the list,
/// but for a domain without a name, which is refused; to remove, with whether the domain was on
/// the list, wherever it stood.
pub proof fn law_each_command_has_its_answer(
    domain: Seq<char>,
    front: Seq<Seq<char>>,
    back: Seq<Seq<char>>,
    list: Seq<Seq<char>>,
)
    ensures
        domain.len() > 0 ==> answer(CommandView::Add { domain }, list) == ok_response(
            "{\"added\":\""@ + domain + "\"}"@,
        ),
        domain.len() == 0 ==> answer(CommandView::Add { domain }, list)
            == "HTTP/1.1 400 Bad Request\r\n\r\n{\"error\":\"empty domain\"}"@,
        answer(CommandView::Remove { domain }, front + seq![domain] + back) == ok_response(
            "{\"removed\":true}"@,
        ),
        (forall|i: int| 0 <= i < list.len() ==> #[trigger] list[i] != domain) ==> answer(
            CommandView::Remove { domain },
            list,
        ) == ok_response("{\"removed\":false}"@),
        answer(CommandView::Show, list) == ok_response(json_array(list)),
        answer(CommandView::Unknown, list) == "HTTP/1.1 404 Not Found\r\n\r\n"@,
        answer(CommandView::Malformed, list) == "HTTP/1.1 400 Bad Request\r\n\r\n"@,
{
    assert((front + seq![domain] + back)[front.len() as int] == domain);
}

/// The list keeps its order: a new domain goes to its end, and a removed one leaves the others in
/// their places. A domain without a name is never added, and what neither adds nor removes leaves
/// the list as it is.
pub proof fn law_list_keeps_its_order(
    domain: Seq<char>,
    front: Seq<Seq<char>>,
    back: Seq<Seq<char>>,
    list: Seq<Seq<char>>,
)
    requires
        !front.contains(domain),
        !back.contains(domain),
    ensures
        list_after(CommandView::Remove { domain }, front + seq![domain] + back) == front + back,
        list_after(CommandView::Remove { domain }, front) == front,
        domain.len() > 0 ==> list_after(CommandView::Add { domain }, front) == front + seq![domain],
        domain.len() == 0 ==> list_after(CommandView::Add { domain }, list) == list,
        list.contains(domain) ==> list_after(CommandView::Add { domain }, list) == list,
        list_after(CommandView::Show, list) == list,
        list_after(CommandView::Unknown, list) == list,
        list_after(CommandView::Malformed, list) == list,
{
    let p = bypass::other_than(domain);
    assert forall|i: int| 0 <= i < front.len() implies p(#[trigger] front[i]) by {
        assert(front.contains(front[i]));
    }
    bypass::lemma_filter_all(front, p);
    lemma_removed_between(domain, front, back);
    assert(front.push(domain) =~= front + seq![domain]);
}

proof fn lemma_removed_between(domain: Seq<char>, front: Seq<Seq<char>>, back: Seq<Seq<char>>)
    requires
        !front.contains(domain),
        !back.contains(domain),
    ensures
        (front + seq![domain] + back).filter(bypass::other_than(domain)) == front + back,
    decreases back.len(),
{
    let p = bypass::other_than(domain);
    let all = front + seq![domain] + back;
    reveal(Seq::filter);
    if back.len() == 0 {
        assert(all.drop_last() =~= front);
        assert(all.last() == domain);
        assert forall|i: int| 0 <= i < front.len() implies p(#[trigger] front[i]) by {
            assert(front.contains(front[i]));
        }
        bypass::lemma_filter_all(front, p);
        assert(front + back =~= front);
    } else {
        let init = back.drop_last();
        let last = back[back.len() - 1];
        assert(back.contains(last));
        assert(!init.contains(domain)) by {
            if init.contains(domain) {
                let i = choose|i: int| 0 <= i < init.len() && init[i] == domain;
                assert(back[i] == domain);
            }
        }
        lemma_removed_between(domain, front, init);
        assert(all.drop_last() =~= front + seq![domain] + init);
        assert(all.last() == last);
        assert((front + init).push(last) =~= front + back);
    }
}

/// Inside a JSON string the parts of a text stand one after the other.
pub proof fn law_json_goes_character_by_character(a: Seq<char>, b: Seq<char>)
    ensures
        json_chars(a + b) == json_chars(a) + json_chars(b),
    decreases b.len(),
{
    if b.len() == 0 {
        assert(a + b =~= a);
        assert(json_chars(a) + json_chars(b) =~= json_chars(a));
    } else {
        law_json_goes_character_by_character(a, b.drop_last());
        assert((a + b).drop_last() =~= a + b.drop_last());
        assert((a + b).last() == b.last());
        assert(json_chars(a + b) =~= json_chars(a) + json_chars(b));
    }
}

/// Shown as a JSON array, the list stands between brackets; one more name stands right before the
/// closing bracket, after a comma unless it is the first, and changes nothing else.
pub proof fn law_one_more_name_is_shown_last(list: Seq<Seq<char>>, name: Seq<char>)
    ensures
        json_array(Seq::empty()) == seq!['[', ']'],
        json_array(seq![name]) == seq!['['] + json_string(name) + seq![']'],
        ({
            let before = json_array(list);
            let after = json_array(list.push(name));
            &&& before.len() >= 2
            &&& list.len() > 0 ==> after == before.drop_last() + seq![','] + json_string(name)
                + seq![']']
        }),
{
    assert(json_array(Seq::empty()) =~= seq!['[', ']']);
    assert(list.push(name).drop_last() =~= list);
    assert(list.push(name).last() == name);
    assert(json_array(list).drop_last() =~= seq!['['] + json_items(list));
    if list.len() > 0 {
        assert(json_array(list.push(name)) =~= json_array(list).drop_last() + seq![',']
            + json_string(name) + seq![']']);
    }
}

} // verus!
