//! Options of the generator of driver tests, and which tests it generates.
use vstd::prelude::*;

verus! {

/// Whether a regular expression matches somewhere in a text.
pub uninterp spec fn pattern_matches(pattern: Seq<char>, text: Seq<char>) -> bool;

/// What is wrong with the syntax of a regular expression, `None` if nothing is.
pub uninterp spec fn syntax_error(pattern: Seq<char>) -> Option<Seq<char>>;

/// Why a pattern is refused.
#[derive(Debug, PartialEq, Eq)]
pub enum PatternError {
    /// It is no regular expression.
    Syntax(String),
    /// Its compiled form takes too much memory.
    Limit(String),
}

impl PatternError {
    /// The text of the error.
    pub open spec fn text(self) -> Seq<char> {
        match self {
            PatternError::Syntax(text) => text@,
            PatternError::Limit(text) => text@,
        }
    }

    /// The text of the error.
    pub fn into_text(self) -> (r: String)
        ensures
            r@ == self.text(),
    {
        match self {
            PatternError::Syntax(text) => text,
            PatternError::Limit(text) => text,
        }
    }
}

/// `regex::Regex::new` and `Regex::is_match`: whether the pattern matches somewhere in the text, or
/// why the pattern is refused. What is wrong with its syntax is found first, and follows from the
/// pattern alone. Which of the other patterns take too much memory is left open, since sizes in
/// memory differ between machines.
#[verifier::external_body]
fn regex_is_match(pattern: &str, text: &str) -> (r: Result<bool, PatternError>)
    ensures
        r.is_ok() ==> syntax_error(pattern@).is_none(),
        r.is_ok() ==> r->Ok_0 == pattern_matches(pattern@, text@),
        r.is_err() && r->Err_0 is Syntax ==> syntax_error(pattern@) == Some(r->Err_0->Syntax_0@),
        r.is_err() && r->Err_0 is Limit ==> syntax_error(pattern@).is_none(),
{
    match regex::Regex::new(pattern) {
        Ok(regex) => Ok(regex.is_match(text)),
        Err(regex::Error::Syntax(error)) => Err(PatternError::Syntax(error)),
        Err(error) => Err(PatternError::Limit(error.to_string())),
    }
}

/// What an option is given as.
#[derive(Debug, Clone, Copy, PartialEq, Eq, Structural)]
pub enum ValueKind {
    /// A name.
    Ident,
    /// A number with a fractional part.
    Float,
    /// A text.
    Text,
}

/// Why options are refused.
#[derive(Debug)]
pub enum OptionError {
    /// There is no such option.
    UnknownKey(String),
    /// The pattern of tests to generate is refused.
    BadInclude(String),
    /// The pattern of tests to leave out is refused.
    BadExclude(String),
    /// The name is missing.
    NameRequired,
    /// The stack factory is missing.
    StackFactoryRequired,
}

impl OptionError {
    /// The text of the error.
    pub fn to_text(&self) -> (r: String)
        ensures
            r@ == (match *self {
                OptionError::UnknownKey(key) => "Unknown key: "@ + key@,
                OptionError::BadInclude(error) => "Failed to compile 'include' regex: "@ + error@,
                OptionError::BadExclude(error) => "Failed to compile 'exclude' regex: "@ + error@,
                OptionError::NameRequired => "'name' is required"@,
                OptionError::StackFactoryRequired => "'stack_factory' is required"@,
            }),
    {
        match self {
            OptionError::UnknownKey(key) => {
                let mut s = "Unknown key: ".to_owned();
                s.append(key.as_str());
                s
            },
            OptionError::BadInclude(error) => {
                let mut s = "Failed to compile 'include' regex: ".to_owned();
                s.append(error.as_str());
                s
            },
            OptionError::BadExclude(error) => {
                let mut s = "Failed to compile 'exclude' regex: ".to_owned();
                s.append(error.as_str());
                s
            },
            OptionError::NameRequired => "'name' is required".to_owned(),
            OptionError::StackFactoryRequired => "'stack_factory' is required".to_owned(),
        }
    }
}

/// The options that there are.
#[derive(Debug, Clone, Copy, PartialEq, Eq, Structural)]
pub enum OptionKey {
    Name,
    StackFactory,
    Timeout,
    TestAttr,
    Include,
    Exclude,
}

impl OptionKey {
    /// What the option is called.
    pub open spec fn text(self) -> Seq<char> {
        match self {
            OptionKey::Name => "name"@,
            OptionKey::StackFactory => "stack_factory"@,
            OptionKey::Timeout => "timeout"@,
            OptionKey::TestAttr => "test_attr"@,
            OptionKey::Include => "include"@,
            OptionKey::Exclude => "exclude"@,
        }
    }

    /// The option with the given name.
    pub fn find(key: &str) -> (r: Result<OptionKey, OptionError>)
        ensures
            match r {
                Ok(option) => option.text() == key@,
                Err(error) => {
                    &&& error matches OptionError::UnknownKey(k)
                    &&& k@ == key@
                    &&& forall|option: OptionKey| #[trigger] option.text() != key@
                },
            },
    {
        let text = key.to_owned();
        if text == "name".to_owned() {
            Ok(OptionKey::Name)
        } else if text == "stack_factory".to_owned() {
            Ok(OptionKey::StackFactory)
        } else if text == "timeout".to_owned() {
            Ok(OptionKey::Timeout)
        } else if text == "test_attr".to_owned() {
            Ok(OptionKey::TestAttr)
        } else if text == "include".to_owned() {
            Ok(OptionKey::Include)
        } else if text == "exclude".to_owned() {
            Ok(OptionKey::Exclude)
        } else {
            Err(OptionError::UnknownKey(text))
        }
    }

    /// What the option is given as.
    pub fn value_kind(&self) -> (r: ValueKind)
        ensures
            r == (match *self {
                OptionKey::Name | OptionKey::StackFactory | OptionKey::TestAttr => ValueKind::Ident,
                OptionKey::Timeout => ValueKind::Float,
                OptionKey::Include | OptionKey::Exclude => ValueKind::Text,
            }),
    {
        match self {
            OptionKey::Name => ValueKind::Ident,
            OptionKey::StackFactory => ValueKind::Ident,
            OptionKey::TestAttr => ValueKind::Ident,
            OptionKey::Timeout => ValueKind::Float,
            OptionKey::Include => ValueKind::Text,
            OptionKey::Exclude => ValueKind::Text,
        }
    }
}

/// Options that were given so far. The last value of each counts.
#[derive(Debug)]
pub struct DriverOptions {
    pub name: Option<String>,
    pub stack_factory: Option<String>,
    /// The digits of the number of seconds.
    pub timeout: Option<String>,
    pub test_attr: Option<String>,
    pub include_pattern: Option<String>,
    pub exclude_pattern: Option<String>,
}

impl DriverOptions {
    /// None was given.
    pub fn new() -> (r: Self)
        ensures
            r == (DriverOptions {
                name: None,
                stack_factory: None,
                timeout: None,
                test_attr: None,
                include_pattern: None,
                exclude_pattern: None,
            }),
    {
        DriverOptions {
            name: None,
            stack_factory: None,
            timeout: None,
            test_attr: None,
            include_pattern: None,
            exclude_pattern: None,
        }
    }

    /// With a value for an option, whatever it is.
    pub open spec fn with(self, key: OptionKey, value: String) -> DriverOptions {
        match key {
            OptionKey::Name => DriverOptions { name: Some(value), ..self },
            OptionKey::StackFactory => DriverOptions { stack_factory: Some(value), ..self },
            OptionKey::Timeout => DriverOptions { timeout: Some(value), ..self },
            OptionKey::TestAttr => DriverOptions { test_attr: Some(value), ..self },
            OptionKey::Include => DriverOptions { include_pattern: Some(value), ..self },
            OptionKey::Exclude => DriverOptions { exclude_pattern: Some(value), ..self },
        }
    }

    /// With a value for an option. `refusal` says why the value, as a pattern, is refused, if it is;
    /// of an option that is no pattern it says nothing.
    pub fn accept(self, key: OptionKey, value: String, refusal: Option<PatternError>) -> (r: Result<
        Self,
        OptionError,
    >)
        ensures
            match (key, refusal) {
                (OptionKey::Include, Some(error)) => r matches Err(OptionError::BadInclude(text)) && text@
                    == error.text(),
                (OptionKey::Exclude, Some(error)) => r matches Err(OptionError::BadExclude(text)) && text@
                    == error.text(),
                _ => r == Ok::<Self, OptionError>(self.with(key, value)),
            },
    {
        let mut options = self;
        match key {
            OptionKey::Name => {
                options.name = Some(value);
            },
            OptionKey::StackFactory => {
                options.stack_factory = Some(value);
            },
            OptionKey::Timeout => {
                options.timeout = Some(value);
            },
            OptionKey::TestAttr => {
                options.test_attr = Some(value);
            },
            OptionKey::Include => {
                match refusal {
                    Some(error) => {
                        return Err(OptionError::BadInclude(error.into_text()));
                    },
                    None => {},
                }
                options.include_pattern = Some(value);
            },
            OptionKey::Exclude => {
                match refusal {
                    Some(error) => {
                        return Err(OptionError::BadExclude(error.into_text()));
                    },
                    None => {},
                }
                options.exclude_pattern = Some(value);
            },
        }
        Ok(options)
    }

    /// With a value for an option, unless that is a pattern that is refused: because of its syntax,
    /// with what is wrong with it, or because its compiled form takes too much memory.
    pub fn set(self, key: OptionKey, value: String) -> (r: Result<Self, OptionError>)
        ensures
            match key {
                OptionKey::Include => match r {
                    Ok(options) => options == self.with(key, value) && syntax_error(value@).is_none(),
                    Err(error) => error is BadInclude && (syntax_error(value@).is_some() ==> syntax_error(
                        value@,
                    ) == Some(error->BadInclude_0@)),
                },
                OptionKey::Exclude => match r {
                    Ok(options) => options == self.with(key, value) && syntax_error(value@).is_none(),
                    Err(error) => error is BadExclude && (syntax_error(value@).is_some() ==> syntax_error(
                        value@,
                    ) == Some(error->BadExclude_0@)),
                },
                _ => r == Ok::<Self, OptionError>(self.with(key, value)),
            },
    {
        let refusal = match key {
            OptionKey::Include | OptionKey::Exclude => match regex_is_match(value.as_str(), "") {
                Ok(_) => None,
                Err(error) => Some(error),
            },
            _ => None,
        };
        self.accept(key, value, refusal)
    }

    /// The generator with these options. A name and a stack factory are required.
    pub fn finish(self) -> (r: Result<TestNetDriverClientServer, OptionError>)
        ensures
            match (self.name, self.stack_factory) {
                (None, _) => r == Err::<TestNetDriverClientServer, OptionError>(OptionError::NameRequired),
                (Some(_), None) => r == Err::<TestNetDriverClientServer, OptionError>(
                    OptionError::StackFactoryRequired,
                ),
                (Some(name), Some(stack_factory)) => {
                    &&& r.is_ok()
                    &&& r->Ok_0.test_name == name
                    &&& r->Ok_0.stack_factory == stack_factory
                    &&& r->Ok_0.timeout@ == (match self.timeout {
                        Some(timeout) => timeout@,
                        None => "0.1"@,
                    })
                    &&& r->Ok_0.test_attr@ == (match self.test_attr {
                        Some(test_attr) => test_attr@,
                        None => "test"@,
                    })
                    &&& r->Ok_0.include_pattern == self.include_pattern
                    &&& r->Ok_0.exclude_pattern == self.exclude_pattern
                },
            },
    {
        let test_name = match self.name {
            Some(name) => name,
            None => {
                return Err(OptionError::NameRequired);
            },
        };
        let stack_factory = match self.stack_factory {
            Some(stack_factory) => stack_factory,
            None => {
                return Err(OptionError::StackFactoryRequired);
            },
        };
        let timeout = match self.timeout {
            Some(timeout) => timeout,
            None => "0.1".to_owned(),
        };
        let test_attr = match self.test_attr {
            Some(test_attr) => test_attr,
            None => "test".to_owned(),
        };
        Ok(
            TestNetDriverClientServer {
                test_name,
                stack_factory,
                timeout,
                test_attr,
                include_pattern: self.include_pattern,
                exclude_pattern: self.exclude_pattern,
            },
        )
    }
}

/// A test to generate.
#[derive(Debug)]
pub struct GeneratedTest {
    /// The name of the test.
    pub test_name: String,
    /// The method of the suite that it runs.
    pub method_name: String,
}

/// The names of a generated test.
pub struct GeneratedView {
    pub test_name: Seq<char>,
    pub method_name: Seq<char>,
}

impl View for GeneratedTest {
    type V = GeneratedView;

    open spec fn view(&self) -> GeneratedView {
        GeneratedView { test_name: self.test_name@, method_name: self.method_name@ }
    }
}

/// The mathematical value of a list of tests.
pub open spec fn generated(tests: Seq<GeneratedTest>) -> Seq<GeneratedView> {
    Seq::new(tests.len(), |i: int| tests[i]@)
}

/// A generator of driver tests.
#[derive(Debug)]
pub struct TestNetDriverClientServer {
    pub test_name: String,
    pub stack_factory: String,
    /// The digits of the number of seconds that a test waits.
    pub timeout: String,
    pub test_attr: String,
    /// The pattern of tests to generate.
    pub include_pattern: Option<String>,
    /// The pattern of tests to leave out.
    pub exclude_pattern: Option<String>,
}

/// Whether a name is selected, given whether each pattern, where there is one, matches it.
pub open spec fn is_selected(included: Option<bool>, excluded: Option<bool>) -> bool {
    included != Some(false) && excluded != Some(true)
}

/// Whether a name is selected, given whether each pattern, where there is one, matches it.
pub fn select(included: Option<bool>, excluded: Option<bool>) -> (r: bool)
    ensures
        r == is_selected(included, excluded),
{
    match included {
        Some(false) => {
            return false;
        },
        _ => {},
    }
    match excluded {
        Some(true) => {
            return false;
        },
        _ => {},
    }
    true
}

/// Whether a pattern, where there is one, matches.
pub open spec fn matched(pattern: Option<String>, name: Seq<char>) -> Option<bool> {
    match pattern {
        Some(p) => Some(pattern_matches(p@, name)),
        None => None,
    }
}

/// What is wrong with the syntax of a pattern, if there is one and anything is.
pub open spec fn refused(pattern: Option<String>) -> Option<Seq<char>> {
    match pattern {
        Some(p) => syntax_error(p@),
        None => None,
    }
}

/// Whether a pattern can give this error: where its syntax is wrong, it gives that error and no
/// other; otherwise, if there is a pattern at all, it may take too much memory.
pub open spec fn can_give(pattern: Option<String>, error: PatternError) -> bool {
    match error {
        PatternError::Syntax(text) => refused(pattern) == Some(text@),
        PatternError::Limit(_) => pattern.is_some() && refused(pattern).is_none(),
    }
}

fn try_match(pattern: &Option<String>, name: &str) -> (r: Result<Option<bool>, PatternError>)
    ensures
        match r {
            Ok(m) => m == matched(*pattern, name@) && refused(*pattern).is_none(),
            Err(error) => can_give(*pattern, error),
        },
{
    match pattern {
        Some(p) => match regex_is_match(p.as_str(), name) {
            Ok(b) => Ok(Some(b)),
            Err(error) => Err(error),
        },
        None => Ok(None),
    }
}

impl TestNetDriverClientServer {
    /// The tests for the selected ones of the given names, in order.
    pub open spec fn selection(self, names: Seq<Seq<char>>) -> Seq<GeneratedView>
        decreases names.len(),
    {
        if names.len() == 0 {
            Seq::empty()
        } else {
            let rest = self.selection(names.drop_last());
            let name = names.last();
            if is_selected(matched(self.include_pattern, name), matched(self.exclude_pattern, name)) {
                rest.push(self.test_view(name))
            } else {
                rest
            }
        }
    }

    /// The test for a name.
    pub open spec fn test_view(self, name: Seq<char>) -> GeneratedView {
        GeneratedView { test_name: "test_"@ + self.test_name@ + "_"@ + name, method_name: "test_"@ + name }
    }

    /// The test for a name, if it is selected. Given is whether each pattern, where there is one,
    /// matches the name, or why it is refused.
    pub fn test_for(
        &self,
        name: &str,
        included: Result<Option<bool>, PatternError>,
        excluded: Result<Option<bool>, PatternError>,
    ) -> (r: Result<Option<GeneratedTest>, PatternError>)
        ensures
            match (included, excluded) {
                (Err(error), _) => r == Err::<Option<GeneratedTest>, PatternError>(error),
                (Ok(_), Err(error)) => r == Err::<Option<GeneratedTest>, PatternError>(error),
                (Ok(i), Ok(x)) => if is_selected(i, x) {
                    r.is_ok() && r->Ok_0.is_some() && r->Ok_0.unwrap()@ == self.test_view(name@)
                } else {
                    r == Ok::<Option<GeneratedTest>, PatternError>(None)
                },
            },
    {
        let included = match included {
            Ok(included) => included,
            Err(error) => {
                return Err(error);
            },
        };
        let excluded = match excluded {
            Ok(excluded) => excluded,
            Err(error) => {
                return Err(error);
            },
        };
        if select(included, excluded) {
            Ok(Some(generated_test(self.test_name.as_str(), name)))
        } else {
            Ok(None)
        }
    }

    /// What generating tests for the given names gives: the tests for the selected ones, in order,
    /// or why a pattern is refused, the pattern of tests to generate being tried first. A pattern is
    /// tried only if there is a name.
    pub open spec fn generates(
        self,
        names: Seq<Seq<char>>,
        r: Result<Vec<GeneratedTest>, PatternError>,
    ) -> bool {
        match r {
            Ok(tests) => {
                &&& generated(tests@) == self.selection(names)
                &&& names.len() > 0 ==> refused(self.include_pattern).is_none() && refused(
                    self.exclude_pattern,
                ).is_none()
            },
            Err(error) => {
                &&& names.len() > 0
                &&& can_give(self.include_pattern, error) || (refused(self.include_pattern).is_none()
                    && can_give(self.exclude_pattern, error))
            },
        }
    }

    /// The tests for the selected ones of the given names, in order; why a pattern is refused, if it
    /// is.
    pub fn gen_tests_from_suite(&self, names: &Vec<&'static str>) -> (r: Result<Vec<GeneratedTest>, PatternError>)
        ensures
            self.generates(suite_texts(names@), r),
    {
        let ghost texts = suite_texts(names@);
        let mut tests: Vec<GeneratedTest> = Vec::new();
        let mut i: usize = 0;
        assert(texts.take(0) =~= Seq::<Seq<char>>::empty());
        assert(generated(tests@) =~= self.selection(texts.take(0)));
        while i < names.len()
            invariant
                i <= names@.len(),
                texts == suite_texts(names@),
                generated(tests@) == self.selection(texts.take(i as int)),
                i > 0 ==> refused(self.include_pattern).is_none() && refused(self.exclude_pattern).is_none(),
            decreases names@.len() - i,
        {
            assert(texts.take(i + 1).drop_last() =~= texts.take(i as int));
            assert(texts.take(i + 1).last() == names@[i as int]@);
            let name: &str = names[i];
            let included = try_match(&self.include_pattern, name);
            let excluded = try_match(&self.exclude_pattern, name);
            let ghost before = tests@;
            match self.test_for(name, included, excluded) {
                Ok(Some(test)) => {
                    let ghost view = test@;
                    tests.push(test);
                    assert(generated(tests@) =~= generated(before).push(view));
                },
                Ok(None) => {},
                Err(error) => {
                    return Err(error);
                },
            }
            i += 1;
        }
        assert(texts.take(texts.len() as int) =~= texts);
        Ok(tests)
    }

    /// The tests of connections.
    pub fn gen_core_tests(&self) -> (r: Result<Vec<GeneratedTest>, PatternError>)
        ensures
            self.generates(Suite::Core.texts(), r),
    {
        self.gen_tests_from_suite(&Suite::Core.names())
    }

    /// The tests of sending to the server.
    pub fn gen_send_tests(&self) -> (r: Result<Vec<GeneratedTest>, PatternError>)
        ensures
            self.generates(Suite::Send.texts(), r),
    {
        self.gen_tests_from_suite(&Suite::Send.names())
    }

    /// The tests of sending to one connection.
    pub fn gen_send_to_tests(&self) -> (r: Result<Vec<GeneratedTest>, PatternError>)
        ensures
            self.generates(Suite::SendTo.texts(), r),
    {
        self.gen_tests_from_suite(&Suite::SendTo.names())
    }

    /// The tests of sending to all connections.
    pub fn gen_broadcast_tests(&self) -> (r: Result<Vec<GeneratedTest>, PatternError>)
        ensures
            self.generates(Suite::Broadcast.texts(), r),
    {
        self.gen_tests_from_suite(&Suite::Broadcast.names())
    }
}

/// The test for a name.
fn generated_test(test_name: &str, name: &str) -> (r: GeneratedTest)
    ensures
        r@ == (GeneratedView {
            test_name: "test_"@ + test_name@ + "_"@ + name@,
            method_name: "test_"@ + name@,
        }),
{
    let mut full = "test_".to_owned();
    full.append(test_name);
    full.append("_");
    full.append(name);
    let mut method = "test_".to_owned();
    method.append(name);
    GeneratedTest { test_name: full, method_name: method }
}

/// The texts of a list of names.
pub open spec fn suite_texts(names: Seq<&'static str>) -> Seq<Seq<char>> {
    Seq::new(names.len(), |i: int| names[i]@)
}

/// The suites of tests.
#[derive(Debug, Clone, Copy, PartialEq, Eq, Structural)]
pub enum Suite {
    Core,
    Send,
    SendTo,
    Broadcast,
}

impl Suite {
    /// The names of the tests of the suite.
    pub open spec fn texts(self) -> Seq<Seq<char>> {
        match self {
            Suite::Core => seq![
                "connect"@,
                "listen_already_bound"@,
                "connect_cancelled"@,
                "connect_after_close"@,
            ],
            Suite::Send => seq![
                "send"@,
                "send_many"@,
                "send_closed_src"@,
                "send_closed_dst"@,
                "send_closed_partial"@,
                "send_recv"@,
                "send_recv_many"@,
            ],
            Suite::SendTo => seq![
                "send_to"@,
                "send_to_many"@,
                "send_to_closed_src"@,
                "send_to_closed_dst"@,
                "send_to_closed_partial"@,
                "send_to_invalid_connection"@,
                "send_recv_to"@,
                "send_recv_to_many"@,
            ],
            Suite::Broadcast => seq![
                "broadcast"@,
                "broadcast_closed_src"@,
                "broadcast_closed_dst"@,
                "broadcast_closed_partial"@,
            ],
        }
    }

    /// The names of the tests of the suite.
    pub fn names(&self) -> (r: Vec<&'static str>)
        ensures
            suite_texts(r@) == self.texts(),
    {
        let r: Vec<&'static str> = match self {
            Suite::Core => vec![
                "connect",
                "listen_already_bound",
                "connect_cancelled",
                "connect_after_close",
            ],
            Suite::Send => vec![
                "send",
                "send_many",
                "send_closed_src",
                "send_closed_dst",
                "send_closed_partial",
                "send_recv",
                "send_recv_many",
            ],
            Suite::SendTo => vec![
                "send_to",
                "send_to_many",
                "send_to_closed_src",
                "send_to_closed_dst",
                "send_to_closed_partial",
                "send_to_invalid_connection",
                "send_recv_to",
                "send_recv_to_many",
            ],
            Suite::Broadcast => vec![
                "broadcast",
                "broadcast_closed_src",
                "broadcast_closed_dst",
                "broadcast_closed_partial",
            ],
        };
        assert(suite_texts(r@) =~= self.texts());
        r
    }
}

/// Without patterns, every name gives a test.
pub proof fn lemma_no_pattern_selects_all(generator: TestNetDriverClientServer, names: Seq<Seq<char>>)
    requires
        generator.include_pattern.is_none(),
        generator.exclude_pattern.is_none(),
    ensures
        generator.selection(names).len() == names.len(),
        forall|i: int|
            0 <= i < names.len() ==> (#[trigger] generator.selection(names)[i]).method_name == "test_"@ + names[i],
    decreases names.len(),
{
    if names.len() > 0 {
        lemma_no_pattern_selects_all(generator, names.drop_last());
    }
}

/// A name that both patterns match is left out.
pub proof fn lemma_exclusion_wins(included: Option<bool>)
    ensures
        !is_selected(included, Some(true)),
        is_selected(included, Some(false)) == is_selected(included, None),
{
}

/// A name is selected if and only if the pattern of tests to generate, where there is one, matches it,
/// and the pattern of tests to leave out, where there is one, does not.
pub proof fn lemma_selected_names(generator: TestNetDriverClientServer, name: Seq<char>)
    ensures
        generator.selection(seq![name]).len() > 0 <==> {
            &&& generator.include_pattern matches Some(pattern) ==> pattern_matches(pattern@, name)
            &&& generator.exclude_pattern matches Some(pattern) ==> !pattern_matches(pattern@, name)
        },
        generator.selection(seq![name]).len() > 0 ==> generator.selection(seq![name]) == seq![
            GeneratedView {
                test_name: "test_"@ + generator.test_name@ + "_"@ + name,
                method_name: "test_"@ + name,
            },
        ],
{
    let one = seq![name];
    assert(one.drop_last() =~= Seq::<Seq<char>>::empty());
    assert(generator.selection(one.drop_last()) =~= Seq::<GeneratedView>::empty());
    assert(one.last() == name);
    assert(Seq::<GeneratedView>::empty().push(generator.test_view(name)) =~= seq![generator.test_view(name)]);
}

/// Tests are generated in the order of the names: those for two lists are those for the first one,
/// followed by those for the second.
pub proof fn lemma_tests_in_order(generator: TestNetDriverClientServer, a: Seq<Seq<char>>, b: Seq<Seq<char>>)
    ensures
        generator.selection(a + b) == generator.selection(a) + generator.selection(b),
    decreases b.len(),
{
    if b.len() == 0 {
        assert(a + b =~= a);
        assert(generator.selection(a) + generator.selection(b) =~= generator.selection(a));
    } else {
        lemma_tests_in_order(generator, a, b.drop_last());
        assert((a + b).drop_last() =~= a + b.drop_last());
        assert(generator.selection(a + b) =~= generator.selection(a) + generator.selection(b));
    }
}

/// The tests for different names have different names.
pub proof fn lemma_tests_differ(generator: TestNetDriverClientServer, a: Seq<char>, b: Seq<char>)
    ensures
        generator.test_view(a).test_name == generator.test_view(b).test_name ==> a == b,
        generator.test_view(a).method_name == generator.test_view(b).method_name ==> a == b,
{
    let front = "test_"@ + generator.test_name@ + "_"@;
    let x = generator.test_view(a);
    let y = generator.test_view(b);
    if x.test_name == y.test_name {
        assert(x.test_name.skip(front.len() as int) =~= a);
        assert(y.test_name.skip(front.len() as int) =~= b);
    }
    if x.method_name == y.method_name {
        assert(x.method_name.skip("test_"@.len() as int) =~= a);
        assert(y.method_name.skip("test_"@.len() as int) =~= b);
    }
}

/// What is wrong with the syntax of a pattern is reported as soon as there is a name to match, that of
/// the pattern of tests to generate first. Nothing is reported where there is no pattern or no name,
/// and otherwise what is generated is what is selected.
pub proof fn lemma_bad_patterns_are_reported(
    generator: TestNetDriverClientServer,
    names: Seq<Seq<char>>,
    r: Result<Vec<GeneratedTest>, PatternError>,
)
    requires
        generator.generates(names, r),
    ensures
        names.len() > 0 ==> (generator.include_pattern matches Some(pattern) ==> (syntax_error(pattern@) matches Some(
            text,
        ) ==> (r matches Err(PatternError::Syntax(reported)) && reported@ == text))),
        names.len() > 0 ==> (generator.exclude_pattern matches Some(pattern) ==> (syntax_error(pattern@) is Some
            ==> r is Err)),
        names.len() == 0 ==> r is Ok,
        generator.include_pattern is None && generator.exclude_pattern is None ==> r is Ok,
        r matches Ok(tests) ==> {
            &&& tests@.len() == generator.selection(names).len()
            &&& forall|i: int|
                0 <= i < tests@.len() ==> (#[trigger] tests@[i]).test_name@ == generator.selection(names)[i].test_name
                    && tests@[i].method_name@ == generator.selection(names)[i].method_name
        },
{
    if let Ok(tests) = r {
        assert forall|i: int| 0 <= i < tests@.len() implies (#[trigger] tests@[i]).test_name@ == generator.selection(
            names,
        )[i].test_name && tests@[i].method_name@ == generator.selection(names)[i].method_name by {
            assert(generated(tests@)[i] == tests@[i]@);
        }
    }
}

/// An option has the value that it was given last, and giving a value to one leaves all others.
pub proof fn lemma_options_are_independent(options: DriverOptions, key: OptionKey, value: String)
    ensures
        ({
            let after = options.with(key, value);
            &&& after.name == (if key is Name {
                Some(value)
            } else {
                options.name
            })
            &&& after.stack_factory == (if key is StackFactory {
                Some(value)
            } else {
                options.stack_factory
            })
            &&& after.timeout == (if key is Timeout {
                Some(value)
            } else {
                options.timeout
            })
            &&& after.test_attr == (if key is TestAttr {
                Some(value)
            } else {
                options.test_attr
            })
            &&& after.include_pattern == (if key is Include {
                Some(value)
            } else {
                options.include_pattern
            })
            &&& after.exclude_pattern == (if key is Exclude {
                Some(value)
            } else {
                options.exclude_pattern
            })
        }),
{
}

/// Different options have different names.
pub proof fn lemma_option_names_differ(a: OptionKey, b: OptionKey)
    requires
        a.text() == b.text(),
    ensures
        a == b,
{
    reveal_strlit("name");
    reveal_strlit("stack_factory");
    reveal_strlit("timeout");
    reveal_strlit("test_attr");
    reveal_strlit("include");
    reveal_strlit("exclude");
    assert("name"@.len() == 4);
    assert("stack_factory"@.len() == 13);
    assert("timeout"@[0] == 't' && "timeout"@.len() == 7);
    assert("test_attr"@.len() == 9);
    assert("include"@[0] == 'i' && "include"@.len() == 7);
    assert("exclude"@[0] == 'e' && "exclude"@.len() == 7);
}

/// Every way in which a connection can be closed is tested with each way of sending.
pub proof fn lemma_closing_is_tested(ending: Seq<char>)
    requires
        ending == "src"@ || ending == "dst"@ || ending == "partial"@,
    ensures
        Suite::Send.texts().contains("send_closed_"@ + ending),
        Suite::SendTo.texts().contains("send_to_closed_"@ + ending),
        Suite::Broadcast.texts().contains("broadcast_closed_"@ + ending),
{
    reveal_strlit("src");
    reveal_strlit("dst");
    reveal_strlit("partial");
    reveal_strlit("send_closed_");
    reveal_strlit("send_to_closed_");
    reveal_strlit("broadcast_closed_");
    reveal_strlit("send_closed_src");
    reveal_strlit("send_closed_dst");
    reveal_strlit("send_closed_partial");
    reveal_strlit("send_to_closed_src");
    reveal_strlit("send_to_closed_dst");
    reveal_strlit("send_to_closed_partial");
    reveal_strlit("broadcast_closed_src");
    reveal_strlit("broadcast_closed_dst");
    reveal_strlit("broadcast_closed_partial");
    let at: int = if ending == "src"@ {
        0
    } else if ending == "dst"@ {
        1
    } else {
        2
    };
    assert(Suite::Send.texts()[2 + at] =~= "send_closed_"@ + ending);
    assert(Suite::SendTo.texts()[2 + at] =~= "send_to_closed_"@ + ending);
    assert(Suite::Broadcast.texts()[1 + at] =~= "broadcast_closed_"@ + ending);
}

/// Sending is tested with one message and with many, with a reply and without one, to the server and
/// to one connection.
pub proof fn lemma_sending_is_tested(ending: Seq<char>)
    requires
        ending == ""@ || ending == "_many"@,
    ensures
        Suite::Send.texts().contains("send"@ + ending),
        Suite::Send.texts().contains("send_recv"@ + ending),
        Suite::SendTo.texts().contains("send_to"@ + ending),
        Suite::SendTo.texts().contains("send_recv_to"@ + ending),
{
    reveal_strlit("");
    reveal_strlit("_many");
    reveal_strlit("send");
    reveal_strlit("send_many");
    reveal_strlit("send_recv");
    reveal_strlit("send_recv_many");
    reveal_strlit("send_to");
    reveal_strlit("send_to_many");
    reveal_strlit("send_recv_to");
    reveal_strlit("send_recv_to_many");
    let at: int = if ending == ""@ {
        0
    } else {
        1
    };
    assert(Suite::Send.texts()[at] =~= "send"@ + ending);
    assert(Suite::Send.texts()[5 + at] =~= "send_recv"@ + ending);
    assert(Suite::SendTo.texts()[at] =~= "send_to"@ + ending);
    assert(Suite::SendTo.texts()[6 + at] =~= "send_recv_to"@ + ending);
}

} // verus!
