//! The profile store: two sectioned text files, parsed and merged into one
//! set of profiles.
//!
//! A file is read line by line. A line with a name in square brackets opens
//! the section of that name. Every other line that holds `=` adds settings
//! to the section that is open: the line is cut at each `;`, each piece is
//! cut at each `=`, the first part is the key, and the other parts, each
//! trimmed and joined with `=` again, are the value. A section that is opened
//! again takes up where it left off.

use vstd::prelude::*;
use crate::order::{is_sorted, sorted_strings};
use crate::strmap::StrMap;
use crate::text::{
    chars_of, first_index, has_char, is_space, join, join_with, last_index, lemma_first_index,
    lemma_join_split, lemma_last_index, lemma_split_after, lemma_split_chars, lemma_split_segments,
    lemma_take_next, lemma_trim_identity, lemma_views_push, lemma_without_repeats, opt_chars,
    push_new, split, split_on, string_of, strip_prefix, trim, trim_all, trimmed, views,
    without_prefix, without_repeats,
};

verus! {

/// The name of the file that holds region and output format.
pub const CONFIG_FILE_NAME: &'static str = "config";

/// The name of the file that holds the secrets.
pub const CREDENTIAL_FILE_NAME: &'static str = "credentials";

/// The character that separates the lines of a file.
pub const LINE_BREAK: char = '\n';

/// The character that separates two settings on one line.
pub const JOINER: char = ';';

/// The character that separates a key from its value.
pub const ASSIGN: char = '=';

/// The settings of one section, by key.
pub type Settings = Map<Seq<char>, Seq<char>>;

/// `line` holds `[` at `i` and `]` at `j`, with no line break between them.
pub open spec fn bracketed(line: Seq<char>, i: int, j: int) -> bool {
    &&& 0 <= i < j < line.len()
    &&& line[i] == '['
    &&& line[j] == ']'
    &&& forall|k: int| i < k < j ==> line[k] != LINE_BREAK
}

/// `line` opens a section.
pub open spec fn is_header(line: Seq<char>) -> bool {
    exists|i: int, j: int| bracketed(line, i, j)
}

/// The brackets of a header: the leftmost `[` that has a matching `]`, and
/// the rightmost `]` that matches it.
pub open spec fn header_span(line: Seq<char>, i: int, j: int) -> bool {
    &&& bracketed(line, i, j)
    &&& forall|a: int, b: int| bracketed(line, a, b) ==> i <= a
    &&& forall|b: int| bracketed(line, i, b) ==> b <= j
}

/// The name of the section that `line` opens: what stands between the
/// brackets of the header.
pub open spec fn section_name(line: Seq<char>) -> Option<Seq<char>> {
    if is_header(line) {
        let (i, j) = choose|i: int, j: int| header_span(line, i, j);
        Some(line.subrange(i + 1, j))
    } else {
        None
    }
}

/// The brackets of a header determine the section name.
pub proof fn lemma_section_name(line: Seq<char>, i: int, j: int)
    requires
        header_span(line, i, j),
    ensures
        section_name(line) == Some(line.subrange(i + 1, j)),
{
    assert(bracketed(line, i, j));
    let (a, b) = choose|a: int, b: int| header_span(line, a, b);
    assert(header_span(line, a, b));
    assert(bracketed(line, a, b));
    assert(i <= a && a <= i);
    assert(bracketed(line, i, b));
}

/// On a line without a line break, the header runs from the first `[` to
/// the last `]`, provided that they stand in this order.
pub proof fn lemma_plain_header(line: Seq<char>)
    requires
        !line.contains(LINE_BREAK),
    ensures
        first_index(line, '[') < last_index(line, ']') ==> section_name(line) == Some(
            line.subrange(first_index(line, '[') + 1, last_index(line, ']')),
        ),
        !(first_index(line, '[') < last_index(line, ']')) ==> section_name(line) is None,
{
    lemma_first_index(line, '[');
    lemma_last_index(line, ']');
    let i = first_index(line, '[');
    let j = last_index(line, ']');
    assert forall|k: int| 0 <= k < line.len() implies line[k] != LINE_BREAK by {
        if line[k] == LINE_BREAK {
            assert(line.contains(LINE_BREAK));
        }
    }
    if i < j {
        assert(bracketed(line, i, j));
        assert(header_span(line, i, j));
        lemma_section_name(line, i, j);
    } else {
        assert forall|a: int, b: int| !bracketed(line, a, b) by {
            if bracketed(line, a, b) {
                assert(i <= a);
                assert(b <= j);
            }
        }
    }
}

/// The key of one setting: its first part, trimmed.
pub open spec fn setting_key(fragment: Seq<char>) -> Seq<char> {
    trim(split(fragment, ASSIGN)[0])
}

/// The value of one setting: its other parts, each trimmed, with `=`
/// between them again.
pub open spec fn setting_value(fragment: Seq<char>) -> Seq<char> {
    join(trim_all(split(fragment, ASSIGN)).drop_first(), ASSIGN)
}

/// The settings after the pieces of one line, taken in order. A later
/// setting of a key replaces an earlier one.
pub open spec fn with_fragments(settings: Settings, fragments: Seq<Seq<char>>) -> Settings
    decreases fragments.len(),
{
    if fragments.len() == 0 {
        settings
    } else {
        with_fragments(settings, fragments.drop_last()).insert(
            setting_key(fragments.last()),
            setting_value(fragments.last()),
        )
    }
}

/// A value survives with every `=` that it holds: the settings after a line
/// made of a key, `=` and a value are the settings before with the value
/// stored under the trimmed key. This holds where the key holds neither `=`
/// nor `;` and the value holds neither `;` nor white space.
pub proof fn lemma_value_round_trip(settings: Settings, key: Seq<char>, value: Seq<char>)
    requires
        !key.contains(ASSIGN),
        !key.contains(JOINER),
        !value.contains(JOINER),
        forall|i: int| 0 <= i < value.len() ==> !is_space(value[i]),
    ensures
        setting_key(key + seq![ASSIGN] + value) == trim(key),
        setting_value(key + seq![ASSIGN] + value) == value,
        with_fragments(settings, split(key + seq![ASSIGN] + value, JOINER)) == settings.insert(
            trim(key),
            value,
        ),
{
    let line = key + seq![ASSIGN] + value;
    lemma_split_after(key, value, ASSIGN);
    let parts = split(value, ASSIGN);
    lemma_split_chars(value, ASSIGN);
    lemma_join_split(value, ASSIGN);
    assert forall|i: int| 0 <= i < parts.len() implies trim(#[trigger] parts[i]) == parts[i] by {
        let part = parts[i];
        if part.len() > 0 {
            assert(value.contains(part[0]));
            assert(value.contains(part[part.len() - 1]));
        }
        lemma_trim_identity(part);
    }
    assert(trim_all(split(line, ASSIGN)).drop_first() == parts);
    assert(!line.contains(JOINER)) by {
        if line.contains(JOINER) {
            let k = line.index_of(JOINER);
            if k < key.len() {
                assert(key[k] == JOINER);
                assert(key.contains(JOINER));
            } else if k > key.len() {
                assert(value[k - key.len() - 1] == JOINER);
                assert(value.contains(JOINER));
            }
        }
    }
    lemma_split_segments(line, JOINER);
    lemma_first_index(line, JOINER);
    let fragments = split(line, JOINER);
    assert(fragments == seq![line]);
    assert(fragments.drop_last() == Seq::<Seq<char>>::empty());
    assert(with_fragments(settings, fragments.drop_last()) == settings);
}

/// A line of white space only.
pub open spec fn is_blank(line: Seq<char>) -> bool {
    trim(line).len() == 0
}

/// What has been read of a file: the names of its sections in the order in
/// which they were opened first, the settings of each, and the section that
/// is open.
pub struct Parse {
    pub names: Seq<Seq<char>>,
    pub sections: Map<Seq<char>, Settings>,
    pub current: Option<Seq<char>>,
}

/// Nothing read yet.
pub open spec fn empty_parse() -> Parse {
    Parse { names: Seq::empty(), sections: Map::empty(), current: None }
}

/// The state after one more line. A blank line changes nothing. A header
/// opens its section, new or not. A line without `=`, and a line before the
/// first header, is passed over.
pub open spec fn parse_line(p: Parse, line: Seq<char>) -> Parse {
    if is_blank(line) {
        p
    } else {
        match section_name(line) {
            Some(name) => Parse {
                names: push_new(p.names, name),
                sections: if p.sections.dom().contains(name) {
                    p.sections
                } else {
                    p.sections.insert(name, Map::empty())
                },
                current: Some(name),
            },
            None => match p.current {
                Some(open) => if line.contains(ASSIGN) {
                    Parse {
                        names: p.names,
                        sections: p.sections.insert(
                            open,
                            with_fragments(p.sections[open], split(line, JOINER)),
                        ),
                        current: p.current,
                    }
                } else {
                    p
                },
                None => p,
            },
        }
    }
}

/// The state after the lines, taken in order.
pub open spec fn parse_lines(p: Parse, lines: Seq<Seq<char>>) -> Parse
    decreases lines.len(),
{
    if lines.len() == 0 {
        p
    } else {
        parse_line(parse_lines(p, lines.drop_last()), lines.last())
    }
}

/// What a whole file holds.
pub open spec fn parse(text: Seq<char>) -> Parse {
    parse_lines(empty_parse(), split(text, LINE_BREAK))
}

/// The settings that a map of strings stands for.
pub open spec fn settings_of(m: StrMap<String>) -> Settings {
    m.view_map()
}

/// The sections that a map of maps stands for.
pub open spec fn sections_of(m: StrMap<StrMap<String>>) -> Map<Seq<char>, Settings> {
    Map::new(|k: Seq<char>| m.has(k), |k: Seq<char>| settings_of(m.value_of(k)))
}

/// The section names are those that have settings, and the open section is
/// one of them.
pub open spec fn parse_wf(p: Parse) -> bool {
    &&& forall|k: Seq<char>| p.sections.dom().contains(k) <==> p.names.contains(k)
    &&& p.current matches Some(open) ==> p.names.contains(open)
}

/// Reading a line keeps the state well-formed.
pub proof fn lemma_parse_line_wf(p: Parse, line: Seq<char>)
    requires
        parse_wf(p),
    ensures
        parse_wf(parse_line(p, line)),
{
    let q = parse_line(p, line);
    if !is_blank(line) {
        match section_name(line) {
            Some(name) => {
                if !p.names.contains(name) {
                    assert(q.names[p.names.len() as int] == name);
                    assert forall|k: Seq<char>| q.sections.dom().contains(k) <==> q.names.contains(
                        k,
                    ) by {
                        if p.names.contains(k) {
                            let i = p.names.index_of(k);
                            assert(q.names[i] == k);
                        }
                        if q.names.contains(k) && k != name {
                            let i = q.names.index_of(k);
                            assert(p.names[i] == k);
                        }
                    }
                }
            },
            None => {},
        }
    }
}

/// Reading lines keeps the state well-formed.
pub proof fn lemma_parse_lines_wf(p: Parse, lines: Seq<Seq<char>>)
    requires
        parse_wf(p),
    ensures
        parse_wf(parse_lines(p, lines)),
    decreases lines.len(),
{
    if lines.len() > 0 {
        lemma_parse_lines_wf(p, lines.drop_last());
        lemma_parse_line_wf(parse_lines(p, lines.drop_last()), lines.last());
    }
}

/// The first capture group of the pattern `\[(.*)\]` in `line`, found with
/// `regex::Regex::captures`: the text between the leftmost `[` that is
/// followed on its line by a `]` and the last such `]`, or nothing where the
/// pattern does not match.
#[verifier::external_body]
fn section_capture(line: &str) -> (r: Option<String>)
    ensures
        match r {
            Some(name) => section_name(line@) == Some(name@),
            None => section_name(line@) is None,
        },
{
    match regex::Regex::new(r"\[(.*)\]") {
        Ok(pattern) => match pattern.captures(line) {
            Some(found) => match found.get(1) {
                Some(group) => Some(group.as_str().to_string()),
                None => None,
            },
            None => None,
        },
        Err(_) => None,
    }
}

/// The key and the value of one setting.
pub fn shape_setting(fragment: &Vec<char>) -> (r: (String, String))
    ensures
        r.0@ == setting_key(fragment@),
        r.1@ == setting_value(fragment@),
{
    let parts = split_on(fragment, ASSIGN);
    proof {
        lemma_split_segments(fragment@, ASSIGN);
    }
    let key = trimmed(&parts[0]);
    let mut rest: Vec<Vec<char>> = Vec::new();
    let mut i: usize = 1;
    let ghost wanted = trim_all(split(fragment@, ASSIGN)).drop_first();
    while i < parts.len()
        invariant
            1 <= i <= parts.len(),
            views(parts@) == split(fragment@, ASSIGN),
            wanted == trim_all(split(fragment@, ASSIGN)).drop_first(),
            views(rest@) == wanted.take(i - 1),
        decreases parts.len() - i,
    {
        let part = trimmed(&parts[i]);
        proof {
            lemma_views_push(rest@, part);
            assert(wanted.take(i as int) == wanted.take(i - 1).push(part@));
        }
        rest.push(part);
        i += 1;
    }
    assert(wanted.take(parts.len() - 1) == wanted);
    let value = join_with(&rest, ASSIGN);
    (string_of(&key), string_of(&value))
}

/// The settings of a line added to `settings`.
pub fn shape_settings(settings: &mut StrMap<String>, line: &Vec<char>)
    ensures
        settings_of(*final(settings)) == with_fragments(
            settings_of(*old(settings)),
            split(line@, JOINER),
        ),
{
    let fragments = split_on(line, JOINER);
    let ghost start = settings_of(*settings);
    let mut i: usize = 0;
    while i < fragments.len()
        invariant
            i <= fragments.len(),
            views(fragments@) == split(line@, JOINER),
            settings_of(*settings) == with_fragments(start, split(line@, JOINER).take(i as int)),
        decreases fragments.len() - i,
    {
        let ghost before = *settings;
        let (key, value) = shape_setting(&fragments[i]);
        settings.insert(key, value);
        proof {
            let upto = split(line@, JOINER).take(i + 1);
            assert(upto.drop_last() == split(line@, JOINER).take(i as int));
            assert(upto.last() == fragments@[i as int]@);
            before.lemma_insert_view_map(*settings, key@, value);
        }
        i += 1;
    }
    assert(split(line@, JOINER).take(fragments.len() as int) == split(line@, JOINER));
}

/// The sections and the open section agree with what was read.
pub open spec fn holds_parse(
    sections: StrMap<StrMap<String>>,
    current: Option<usize>,
    p: Parse,
) -> bool {
    &&& parse_wf(p)
    &&& sections.keys() == p.names
    &&& sections_of(sections) == p.sections
    &&& match current {
        Some(i) => i < p.names.len() && p.current == Some(p.names[i as int]),
        None => p.current is None,
    }
}

/// Reads one line into the sections.
fn shape_line(
    sections: &mut StrMap<StrMap<String>>,
    current: &mut Option<usize>,
    line: &Vec<char>,
    Ghost(p): Ghost<Parse>,
)
    requires
        holds_parse(*old(sections), *old(current), p),
    ensures
        holds_parse(*final(sections), *final(current), parse_line(p, line@)),
{
    proof {
        lemma_parse_line_wf(p, line@);
        use_type_invariant(&*sections);
    }
    let ghost q = parse_line(p, line@);
    let ghost before = *sections;
    if trimmed(line).len() == 0 {
        return ;
    }
    let text = string_of(line);
    match section_capture(text.as_str()) {
        Some(name) => {
            let ghost opened = name@;
            let at = match sections.find(name.as_str()) {
                Some(i) => i,
                None => {
                    let i = sections.len();
                    let fresh: StrMap<String> = StrMap::new();
                    assert(settings_of(fresh) =~= Map::<Seq<char>, Seq<char>>::empty());
                    sections.insert(name, fresh);
                    i
                },
            };
            *current = Some(at);
            proof {
                before.lemma_wf();
                sections.lemma_wf();
                lemma_first_index(before.keys(), opened);
                assert(sections.keys()[at as int] == opened);
                assert(sections_of(*sections) =~= q.sections) by {
                    assert forall|k: Seq<char>| sections.has(k) implies (#[trigger] sections_of(
                        *sections,
                    )[k]) == q.sections[k] by {
                        lemma_first_index(sections.keys(), k);
                        lemma_first_index(before.keys(), k);
                    }
                }
            }
        },
        None => {
            if has_char(line, ASSIGN) {
                if let Some(i) = *current {
                    let mut settings: StrMap<String> = StrMap::new();
                    sections.swap_value(i, &mut settings);
                    let ghost held = settings;
                    shape_settings(&mut settings, line);
                    let ghost filled = settings;
                    sections.swap_value(i, &mut settings);
                    proof {
                        before.lemma_wf();
                        sections.lemma_wf();
                        assert(sections.values() == before.values().update(i as int, filled));
                        assert(sections_of(*sections) =~= q.sections) by {
                            assert forall|k: Seq<char>| sections.has(k) implies (
                            #[trigger] sections_of(*sections)[k]) == q.sections[k] by {
                                lemma_first_index(sections.keys(), k);
                            }
                        }
                    }
                }
            }
        },
    }
}

/// The sections of a file, with the settings of each. The sections stand in
/// the order in which the file opens them first.
pub fn shape_aws_toml(text: &str) -> (sections: StrMap<StrMap<String>>)
    ensures
        sections.keys() == parse(text@).names,
        sections_of(sections) == parse(text@).sections,
{
    let chars = chars_of(text);
    let lines = split_on(&chars, LINE_BREAK);
    let mut sections: StrMap<StrMap<String>> = StrMap::new();
    let mut current: Option<usize> = None;
    let ghost mut p = empty_parse();
    assert(sections_of(sections) =~= p.sections);
    let mut i: usize = 0;
    while i < lines.len()
        invariant
            i <= lines.len(),
            views(lines@) == split(text@, LINE_BREAK),
            p == parse_lines(empty_parse(), split(text@, LINE_BREAK).take(i as int)),
            holds_parse(sections, current, p),
        decreases lines.len() - i,
    {
        proof {
            let upto = split(text@, LINE_BREAK).take(i + 1);
            assert(upto.drop_last() == split(text@, LINE_BREAK).take(i as int));
            assert(upto.last() == lines@[i as int]@);
        }
        shape_line(&mut sections, &mut current, &lines[i], Ghost(p));
        proof {
            p = parse_line(p, lines@[i as int]@);
        }
        i += 1;
    }
    assert(split(text@, LINE_BREAK).take(lines.len() as int) == split(text@, LINE_BREAK));
    sections
}

/// One profile: where it is hosted, how its output is formatted, and its
/// secrets. What a file does not give is empty or absent.
pub struct AWSProfile {
    pub name: String,
    pub region: String,
    pub output: String,
    pub access_key_id: Option<String>,
    pub secret_access_key: Option<String>,
    pub session_token: Option<String>,
}

/// What the configuration file says of one profile.
pub struct Config {
    pub region: String,
    pub output: String,
}

/// What the credentials file says of one profile.
pub struct Credential {
    pub access_key_id: Option<String>,
    pub secret_access_key: Option<String>,
    pub session_token: Option<String>,
}

/// The configuration file, by profile.
pub struct Configs {
    pub items: StrMap<Config>,
}

/// The credentials file, by profile.
pub struct Credentials {
    pub items: StrMap<Credential>,
}

/// The mathematical value of an `AWSProfile`.
pub struct Profile {
    pub name: Seq<char>,
    pub region: Seq<char>,
    pub output: Seq<char>,
    pub access_key_id: Option<Seq<char>>,
    pub secret_access_key: Option<Seq<char>>,
    pub session_token: Option<Seq<char>>,
}

/// The mathematical value of a `Config`.
pub struct ConfigRow {
    pub region: Seq<char>,
    pub output: Seq<char>,
}

/// The mathematical value of a `Credential`.
pub struct CredentialRow {
    pub access_key_id: Option<Seq<char>>,
    pub secret_access_key: Option<Seq<char>>,
    pub session_token: Option<Seq<char>>,
}

impl View for AWSProfile {
    type V = Profile;

    open spec fn view(&self) -> Profile {
        Profile {
            name: self.name@,
            region: self.region@,
            output: self.output@,
            access_key_id: opt_chars(self.access_key_id),
            secret_access_key: opt_chars(self.secret_access_key),
            session_token: opt_chars(self.session_token),
        }
    }
}

impl View for Config {
    type V = ConfigRow;

    open spec fn view(&self) -> ConfigRow {
        ConfigRow { region: self.region@, output: self.output@ }
    }
}

impl View for Credential {
    type V = CredentialRow;

    open spec fn view(&self) -> CredentialRow {
        CredentialRow {
            access_key_id: opt_chars(self.access_key_id),
            secret_access_key: opt_chars(self.secret_access_key),
            session_token: opt_chars(self.session_token),
        }
    }
}

/// What a section name may start with in the configuration file.
pub open spec fn profile_prefix() -> Seq<char> {
    "profile "@
}

/// The name of the profile that a section describes.
pub open spec fn profile_name(section: Seq<char>) -> Seq<char> {
    strip_prefix(section, profile_prefix())
}

/// The value of a setting, if the section has it.
pub open spec fn setting(settings: Settings, key: Seq<char>) -> Option<Seq<char>> {
    if settings.dom().contains(key) {
        Some(settings[key])
    } else {
        None
    }
}

/// The value of a setting, or the empty string.
pub open spec fn setting_or_empty(settings: Settings, key: Seq<char>) -> Seq<char> {
    match setting(settings, key) {
        Some(v) => v,
        None => Seq::empty(),
    }
}

/// What a section of the configuration file says.
pub open spec fn config_row(settings: Settings) -> ConfigRow {
    ConfigRow {
        region: setting_or_empty(settings, "region"@),
        output: setting_or_empty(settings, "output"@),
    }
}

/// What a section of the credentials file says.
pub open spec fn credential_row(settings: Settings) -> CredentialRow {
    CredentialRow {
        access_key_id: setting(settings, "aws_access_key_id"@),
        secret_access_key: setting(settings, "aws_secret_access_key"@),
        session_token: setting(settings, "aws_session_token"@),
    }
}

/// The profiles that the sections describe, in the order in which they are
/// described first.
pub open spec fn table_names(names: Seq<Seq<char>>) -> Seq<Seq<char>>
    decreases names.len(),
{
    if names.len() == 0 {
        Seq::empty()
    } else {
        push_new(table_names(names.drop_last()), profile_name(names.last()))
    }
}

/// The configuration of each profile. Of two sections that describe one
/// profile, the later one counts.
pub open spec fn config_rows(names: Seq<Seq<char>>, sections: Map<Seq<char>, Settings>) -> Map<
    Seq<char>,
    ConfigRow,
>
    decreases names.len(),
{
    if names.len() == 0 {
        Map::empty()
    } else {
        config_rows(names.drop_last(), sections).insert(
            profile_name(names.last()),
            config_row(sections[names.last()]),
        )
    }
}

/// The credentials of each profile. Of two sections that describe one
/// profile, the later one counts.
pub open spec fn credential_rows(
    names: Seq<Seq<char>>,
    sections: Map<Seq<char>, Settings>,
) -> Map<Seq<char>, CredentialRow>
    decreases names.len(),
{
    if names.len() == 0 {
        Map::empty()
    } else {
        credential_rows(names.drop_last(), sections).insert(
            profile_name(names.last()),
            credential_row(sections[names.last()]),
        )
    }
}

/// What is built from the sections of one file.
pub trait AWSConfigManager<T>: Sized {
    /// `self` is what the sections with these names and settings give.
    spec fn built_from(&self, names: Seq<Seq<char>>, sections: Map<Seq<char>, Settings>) -> bool;

    /// Builds the table from the sections of a file.
    fn new(val: StrMap<StrMap<String>>) -> (r: Self)
        ensures
            r.built_from(val.keys(), sections_of(val)),
    ;
}

impl Credentials {
    /// A copy of the value of a setting, if the section has it.
    pub fn get_value_from_map(map: &StrMap<String>, key: &str) -> (r: Option<String>)
        ensures
            opt_chars(r) == setting(settings_of(*map), key@),
    {
        match map.get(key) {
            Some(v) => Some(v.clone()),
            None => None,
        }
    }
}

/// The name of the profile that a section describes.
pub fn profile_name_of(section: &String) -> (r: String)
    ensures
        r@ == profile_name(section@),
{
    let name = chars_of(section.as_str());
    let prefix = chars_of("profile ");
    string_of(&without_prefix(&name, &prefix))
}

/// The settings of the section at index `i`.
pub proof fn lemma_section_at(val: StrMap<StrMap<String>>, i: int)
    requires
        val.wf(),
        0 <= i < val.keys().len(),
    ensures
        sections_of(val)[val.keys()[i]] == settings_of(val.values()[i]),
{
    val.lemma_wf();
    assert(val.keys().contains(val.keys()[i]));
}

impl AWSConfigManager<Config> for Configs {
    open spec fn built_from(
        &self,
        names: Seq<Seq<char>>,
        sections: Map<Seq<char>, Settings>,
    ) -> bool {
        &&& self.items.keys() == table_names(names)
        &&& self.items.view_map() == config_rows(names, sections)
    }

    fn new(val: StrMap<StrMap<String>>) -> (r: Self) {
        let mut items: StrMap<Config> = StrMap::new();
        let n = val.len();
        let ghost names = val.keys();
        let ghost sections = sections_of(val);
        assert(items.view_map() =~= config_rows(names.take(0), sections));
        let mut i: usize = 0;
        while i < n
            invariant
                i <= n,
                n == val.keys().len(),
                val.wf(),
                names == val.keys(),
                sections == sections_of(val),
                items.keys() == table_names(names.take(i as int)),
                items.view_map() == config_rows(names.take(i as int), sections),
            decreases n - i,
        {
            let settings = val.value_at(i);
            let region = match Credentials::get_value_from_map(settings, "region") {
                Some(v) => v,
                None => String::new(),
            };
            let output = match Credentials::get_value_from_map(settings, "output") {
                Some(v) => v,
                None => String::new(),
            };
            let name = profile_name_of(val.key_at(i));
            let row = Config { region, output };
            let ghost before = items;
            proof {
                lemma_section_at(val, i as int);
                assert(names.take(i + 1).drop_last() == names.take(i as int));
                assert(row@ == config_row(sections[names[i as int]]));
            }
            items.insert(name, row);
            proof {
                before.lemma_insert_view_map(items, name@, row);
            }
            i += 1;
        }
        assert(names.take(n as int) == names);
        Configs { items }
    }
}

impl AWSConfigManager<Credential> for Credentials {
    open spec fn built_from(
        &self,
        names: Seq<Seq<char>>,
        sections: Map<Seq<char>, Settings>,
    ) -> bool {
        &&& self.items.keys() == table_names(names)
        &&& self.items.view_map() == credential_rows(names, sections)
    }

    fn new(val: StrMap<StrMap<String>>) -> (r: Self) {
        let mut items: StrMap<Credential> = StrMap::new();
        let n = val.len();
        let ghost names = val.keys();
        let ghost sections = sections_of(val);
        assert(items.view_map() =~= credential_rows(names.take(0), sections));
        let mut i: usize = 0;
        while i < n
            invariant
                i <= n,
                n == val.keys().len(),
                val.wf(),
                names == val.keys(),
                sections == sections_of(val),
                items.keys() == table_names(names.take(i as int)),
                items.view_map() == credential_rows(names.take(i as int), sections),
            decreases n - i,
        {
            let settings = val.value_at(i);
            let row = Credential {
                access_key_id: Credentials::get_value_from_map(settings, "aws_access_key_id"),
                secret_access_key: Credentials::get_value_from_map(
                    settings,
                    "aws_secret_access_key",
                ),
                session_token: Credentials::get_value_from_map(settings, "aws_session_token"),
            };
            let name = profile_name_of(val.key_at(i));
            let ghost before = items;
            proof {
                lemma_section_at(val, i as int);
                assert(names.take(i + 1).drop_last() == names.take(i as int));
                assert(row@ == credential_row(sections[names[i as int]]));
            }
            items.insert(name, row);
            proof {
                before.lemma_insert_view_map(items, name@, row);
            }
            i += 1;
        }
        assert(names.take(n as int) == names);
        Credentials { items }
    }
}

/// What one file gives, built from its sections.
pub fn read<T, S>(text: &str) -> (r: T) where T: AWSConfigManager<S>
    ensures
        r.built_from(parse(text@).names, parse(text@).sections),
{
    T::new(shape_aws_toml(text))
}

/// The text of a file, if the file could be read.
pub open spec fn opt_text(text: Option<&str>) -> Option<Seq<char>> {
    match text {
        Some(t) => Some(t@),
        None => None,
    }
}

/// What a file holds. A file that could not be read holds nothing.
pub open spec fn source(text: Option<Seq<char>>) -> Parse {
    match text {
        Some(t) => parse(t),
        None => empty_parse(),
    }
}

/// The profiles of the configuration file.
pub open spec fn configs_of(text: Option<Seq<char>>) -> Map<Seq<char>, ConfigRow> {
    config_rows(source(text).names, source(text).sections)
}

/// The profiles of the credentials file.
pub open spec fn credentials_of(text: Option<Seq<char>>) -> Map<Seq<char>, CredentialRow> {
    credential_rows(source(text).names, source(text).sections)
}

/// The names of the profiles of both files: those of the configuration
/// file first, then those that only the credentials file has.
pub open spec fn profile_names(config: Option<Seq<char>>, credentials: Option<Seq<char>>) -> Seq<
    Seq<char>,
> {
    without_repeats(table_names(source(config).names) + table_names(source(credentials).names))
}

/// The profile of a name: region and output from the configuration file,
/// the secrets from the credentials file, each empty or absent where the
/// file does not describe the profile.
pub open spec fn merged_profile(
    name: Seq<char>,
    configs: Map<Seq<char>, ConfigRow>,
    credentials: Map<Seq<char>, CredentialRow>,
) -> Profile {
    Profile {
        name,
        region: if configs.dom().contains(name) {
            configs[name].region
        } else {
            Seq::empty()
        },
        output: if configs.dom().contains(name) {
            configs[name].output
        } else {
            Seq::empty()
        },
        access_key_id: if credentials.dom().contains(name) {
            credentials[name].access_key_id
        } else {
            None
        },
        secret_access_key: if credentials.dom().contains(name) {
            credentials[name].secret_access_key
        } else {
            None
        },
        session_token: if credentials.dom().contains(name) {
            credentials[name].session_token
        } else {
            None
        },
    }
}

/// The profiles of both files, by name.
pub open spec fn profiles_of(config: Option<Seq<char>>, credentials: Option<Seq<char>>) -> Map<
    Seq<char>,
    Profile,
> {
    Map::new(
        |n: Seq<char>| profile_names(config, credentials).contains(n),
        |n: Seq<char>| merged_profile(n, configs_of(config), credentials_of(credentials)),
    )
}

/// The profile of a name.
pub fn merge_profile(name: &String, configs: &Configs, credentials: &Credentials) -> (r:
    AWSProfile)
    ensures
        r@ == merged_profile(name@, configs.items.view_map(), credentials.items.view_map()),
{
    let mut profile = AWSProfile {
        name: name.clone(),
        region: String::new(),
        output: String::new(),
        access_key_id: None,
        secret_access_key: None,
        session_token: None,
    };
    if let Some(config) = configs.items.get(name.as_str()) {
        profile.region = config.region.clone();
        profile.output = config.output.clone();
    }
    if let Some(credential) = credentials.items.get(name.as_str()) {
        profile.access_key_id = credential.access_key_id.clone();
        profile.secret_access_key = credential.secret_access_key.clone();
        profile.session_token = credential.session_token.clone();
    }
    profile
}

/// The profiles of the two files. `None` stands for a file that could not
/// be read, and gives no profile.
pub fn read_profiles(config: Option<&str>, credentials: Option<&str>) -> (profiles: StrMap<
    AWSProfile,
>)
    ensures
        profiles.keys() == profile_names(opt_text(config), opt_text(credentials)),
        profiles.view_map() == profiles_of(opt_text(config), opt_text(credentials)),
{
    let config_table: Configs = match config {
        Some(text) => read::<Configs, Config>(text),
        None => {
            let items: StrMap<Config> = StrMap::new();
            assert(items.view_map() =~= Map::<Seq<char>, ConfigRow>::empty());
            Configs { items }
        },
    };
    let credential_table: Credentials = match credentials {
        Some(text) => read::<Credentials, Credential>(text),
        None => {
            let items: StrMap<Credential> = StrMap::new();
            assert(items.view_map() =~= Map::<Seq<char>, CredentialRow>::empty());
            Credentials { items }
        },
    };
    let ghost first = config_table.items.keys();
    let ghost second = credential_table.items.keys();
    let ghost all = first + second;
    let ghost cm = config_table.items.view_map();
    let ghost dm = credential_table.items.view_map();
    let mut profiles: StrMap<AWSProfile> = StrMap::new();
    assert(profiles.view_map() =~= Map::new(
        |name: Seq<char>| all.take(0).contains(name),
        |name: Seq<char>| merged_profile(name, cm, dm),
    ));
    let n = config_table.items.len();
    let mut i: usize = 0;
    while i < n
        invariant
            i <= n,
            n == first.len(),
            first == config_table.items.keys(),
            all == first + second,
            cm == config_table.items.view_map(),
            dm == credential_table.items.view_map(),
            profiles.keys() == without_repeats(all.take(i as int)),
            profiles.view_map() == Map::new(
                |name: Seq<char>| all.take(i as int).contains(name),
                |name: Seq<char>| merged_profile(name, cm, dm),
            ),
        decreases n - i,
    {
        let name = config_table.items.key_at(i).clone();
        let profile = merge_profile(&name, &config_table, &credential_table);
        let ghost before = profiles;
        profiles.insert(name, profile);
        proof {
            before.lemma_insert_view_map(profiles, name@, profile);
            lemma_take_next(all, i as int);
            assert(profiles.view_map() =~= Map::new(
                |name: Seq<char>| all.take(i + 1).contains(name),
                |name: Seq<char>| merged_profile(name, cm, dm),
            ));
        }
        i += 1;
    }
    let m = credential_table.items.len();
    let mut j: usize = 0;
    while j < m
        invariant
            j <= m,
            n == first.len(),
            m == second.len(),
            second == credential_table.items.keys(),
            all == first + second,
            cm == config_table.items.view_map(),
            dm == credential_table.items.view_map(),
            profiles.keys() == without_repeats(all.take(n + j)),
            profiles.view_map() == Map::new(
                |name: Seq<char>| all.take(n + j).contains(name),
                |name: Seq<char>| merged_profile(name, cm, dm),
            ),
        decreases m - j,
    {
        let name = credential_table.items.key_at(j).clone();
        let profile = merge_profile(&name, &config_table, &credential_table);
        let ghost before = profiles;
        profiles.insert(name, profile);
        proof {
            before.lemma_insert_view_map(profiles, name@, profile);
            lemma_take_next(all, n + j);
            assert(profiles.view_map() =~= Map::new(
                |name: Seq<char>| all.take(n + j + 1).contains(name),
                |name: Seq<char>| merged_profile(name, cm, dm),
            ));
        }
        j += 1;
    }
    proof {
        assert(all.take(n + m) == all);
        lemma_without_repeats(all);
        assert(profiles.view_map() =~= profiles_of(opt_text(config), opt_text(credentials)));
    }
    profiles
}

/// The names of the profiles, in ascending order.
pub fn list_profile_name(profiles: &StrMap<AWSProfile>) -> (names: Vec<String>)
    ensures
        is_sorted(views(names@)),
        views(names@).to_multiset() == profiles.keys().to_multiset(),
{
    let mut names: Vec<String> = Vec::new();
    let n = profiles.len();
    let mut i: usize = 0;
    while i < n
        invariant
            i <= n,
            n == profiles.keys().len(),
            views(names@) == profiles.keys().take(i as int),
        decreases n - i,
    {
        let name = profiles.key_at(i).clone();
        proof {
            lemma_views_push(names@, name);
            lemma_take_next(profiles.keys(), i as int);
        }
        names.push(name);
        i += 1;
    }
    assert(profiles.keys().take(n as int) == profiles.keys());
    sorted_strings(&names)
}

} // verus!
