//! The settings that the command line gives.

use crate::number::{decimal, is_digit, law_port_reads_back, parse_port, port_number};
use crate::text::{is_text, to_chars};
use vstd::prelude::*;

verus! {

/// How much is logged.
#[derive(Debug, Clone, Copy, PartialEq, Eq, Structural)]
pub enum LogLevel {
    Info,
    Debug,
}

/// Something on the command line that was passed over.
#[verifier::ext_equal]
pub enum WarningModel {
    BadPort(Seq<char>),
    UnknownArgument(Seq<char>),
    BadAddress(Seq<char>),
}

/// Something on the command line that was passed over.
#[derive(Debug)]
pub enum Warning {
    /// What stands behind a port option is no port.
    BadPort(String),
    /// It is neither an option nor a port.
    UnknownArgument(String),
    /// It is no IP address.
    BadAddress(String),
}

impl View for Warning {
    type V = WarningModel;

    open spec fn view(&self) -> WarningModel {
        match self {
            Warning::BadPort(a) => WarningModel::BadPort(a@),
            Warning::UnknownArgument(a) => WarningModel::UnknownArgument(a@),
            Warning::BadAddress(a) => WarningModel::BadAddress(a@),
        }
    }
}

/// Where to listen, how much to log, and what to warn of.
#[verifier::ext_equal]
pub struct SettingsModel {
    pub ip: Seq<char>,
    pub port: u16,
    pub level: LogLevel,
    pub warnings: Seq<WarningModel>,
}

/// Where to listen, how much to log, and what to warn of.
#[derive(Debug)]
pub struct Settings {
    pub ip: String,
    pub port: u16,
    pub level: LogLevel,
    pub warnings: Vec<Warning>,
}

impl View for Settings {
    type V = SettingsModel;

    open spec fn view(&self) -> SettingsModel {
        SettingsModel {
            ip: self.ip@,
            port: self.port,
            level: self.level,
            warnings: self.warnings@.map_values(|w: Warning| w@),
        }
    }
}

/// The settings of an empty command line.
pub open spec fn default_settings() -> SettingsModel {
    SettingsModel {
        ip: "127.0.0.1"@,
        port: 8080,
        level: LogLevel::Info,
        warnings: Seq::empty(),
    }
}

/// `a` is the option for the IP address.
pub open spec fn is_ip_option(a: Seq<char>) -> bool {
    a == "--ip"@ || a == "-i"@
}

/// `a` is the option for the port.
pub open spec fn is_port_option(a: Seq<char>) -> bool {
    a == "--port"@ || a == "-p"@
}

/// `a` is the option for more logging.
pub open spec fn is_debug_option(a: Seq<char>) -> bool {
    a == "--debug"@ || a == "-d"@
}

/// `s` with the port that `a` writes, or else with the warning `w`.
pub open spec fn with_port(s: SettingsModel, a: Seq<char>, w: WarningModel) -> SettingsModel {
    match port_number(a) {
        Some(port) => SettingsModel { port, ..s },
        None => SettingsModel { warnings: s.warnings.push(w), ..s },
    }
}

/// What `args`, read from the left, make of the settings `s`. An option without its value is
/// no option, and a port may stand alone.
pub open spec fn apply_args(s: SettingsModel, args: Seq<Seq<char>>) -> SettingsModel
    decreases args.len(),
{
    if args.len() == 0 {
        s
    } else {
        let a = args[0];
        if args.len() > 1 && is_ip_option(a) {
            apply_args(SettingsModel { ip: args[1], ..s }, args.subrange(2, args.len() as int))
        } else if args.len() > 1 && is_port_option(a) {
            apply_args(
                with_port(s, args[1], WarningModel::BadPort(args[1])),
                args.subrange(2, args.len() as int),
            )
        } else if is_debug_option(a) {
            apply_args(
                SettingsModel { level: LogLevel::Debug, ..s },
                args.subrange(1, args.len() as int),
            )
        } else {
            apply_args(
                with_port(s, a, WarningModel::UnknownArgument(a)),
                args.subrange(1, args.len() as int),
            )
        }
    }
}

/// The texts of `args` behind the first, which is the name of the program.
pub open spec fn arguments(args: Seq<String>) -> Seq<Seq<char>> {
    if args.len() == 0 {
        Seq::empty()
    } else {
        args.drop_first().map_values(|a: String| a@)
    }
}

/// The settings that the command line `args` gives, which begins with the name of the program.
/// Whether the address is one is not looked at.
pub fn parse_args(args: &Vec<String>) -> (s: Settings)
    ensures
        s@ == apply_args(default_settings(), arguments(args@)),
{
    let none: Vec<Warning> = Vec::new();
    let mut s = Settings {
        ip: "127.0.0.1".to_string(),
        port: 8080,
        level: LogLevel::Info,
        warnings: none,
    };
    assert(s@ == default_settings());
    if args.len() == 0 {
        return s;
    }
    let ghost all = arguments(args@);
    let n: usize = args.len();
    let mut i: usize = 1;
    assert(all.subrange(0, all.len() as int) == all);
    while i < n
        invariant
            n == args@.len(),
            1 <= i <= n,
            all == arguments(args@),
            apply_args(default_settings(), all) == apply_args(
                s@,
                all.subrange(i - 1, all.len() as int),
            ),
        decreases n - i,
    {
        let ghost before = s@;
        let ghost rest = all.subrange(i - 1, all.len() as int);
        let a = to_chars(args[i].as_str());
        proof {
            assert(rest[0] == a@);
            assert(rest.len() == n - i);
            if i + 1 < n {
                assert(rest[1] == args@[i + 1]@);
                assert(rest.subrange(2, rest.len() as int) == all.subrange(
                    i + 1,
                    all.len() as int,
                ));
            }
            assert(rest.subrange(1, rest.len() as int) == all.subrange(i as int, all.len() as int));
        }
        let a = a.as_slice();
        if n - i > 1 && (is_text(a, "--ip") || is_text(a, "-i")) {
            s.ip = args[i + 1].clone();
            assert(s@ == SettingsModel { ip: rest[1], ..before });
            i = i + 2;
        } else if n - i > 1 && (is_text(a, "--port") || is_text(a, "-p")) {
            let value = to_chars(args[i + 1].as_str());
            match parse_port(value.as_slice()) {
                Some(port) => {
                    s.port = port;
                },
                None => {
                    s.warnings.push(Warning::BadPort(args[i + 1].clone()));
                    assert(s@.warnings == before.warnings.push(WarningModel::BadPort(rest[1])));
                },
            }
            assert(s@ == with_port(before, rest[1], WarningModel::BadPort(rest[1])));
            i = i + 2;
        } else if is_text(a, "--debug") || is_text(a, "-d") {
            s.level = LogLevel::Debug;
            assert(s@ == SettingsModel { level: LogLevel::Debug, ..before });
            i = i + 1;
        } else {
            match parse_port(a) {
                Some(port) => {
                    s.port = port;
                },
                None => {
                    s.warnings.push(Warning::UnknownArgument(args[i].clone()));
                    assert(s@.warnings == before.warnings.push(
                        WarningModel::UnknownArgument(rest[0]),
                    ));
                },
            }
            assert(s@ == with_port(before, rest[0], WarningModel::UnknownArgument(rest[0])));
            i = i + 1;
        }
    }
    s
}

impl Settings {
    /// The settings to go by, where `valid` tells whether the address is one. An address that
    /// is none gives way to the local one.
    pub fn check_address(self, valid: bool) -> (s: Settings)
        ensures
            s@ == if valid {
                self@
            } else {
                SettingsModel {
                    ip: "127.0.0.1"@,
                    warnings: self@.warnings.push(WarningModel::BadAddress(self@.ip)),
                    ..self@
                }
            },
    {
        let mut s = self;
        if !valid {
            let ghost before = s@;
            s.warnings.push(Warning::BadAddress(s.ip.clone()));
            s.ip = "127.0.0.1".to_string();
            assert(s@.warnings == before.warnings.push(WarningModel::BadAddress(before.ip)));
        }
        s
    }
}

/// Options with their values set just these: any address, any port, and more logging.
pub proof fn law_options_set_what_they_name(ip: Seq<char>, port: u16)
    ensures
        apply_args(
            default_settings(),
            seq!["--ip"@, ip, "--port"@, decimal(port as int), "--debug"@],
        ) == (SettingsModel { ip, port, level: LogLevel::Debug, warnings: Seq::empty() }),
        apply_args(default_settings(), seq!["-i"@, ip, "-p"@, decimal(port as int), "-d"@]) == (
        SettingsModel { ip, port, level: LogLevel::Debug, warnings: Seq::empty() }),
{
    law_port_reads_back(port);
    let d = decimal(port as int);
    lemma_options_differ();
    lemma_five("--ip"@, ip, "--port"@, d, "--debug"@, port);
    lemma_five("-i"@, ip, "-p"@, d, "-d"@, port);
}

proof fn lemma_options_differ()
    ensures
        !is_ip_option("--port"@),
        !is_ip_option("-p"@),
{
    reveal_strlit("--ip");
    reveal_strlit("-i");
    reveal_strlit("--port");
    reveal_strlit("-p");
    assert("--port"@.len() == 6 && "--ip"@.len() == 4 && "-i"@.len() == 2);
    assert("-p"@[1] == 'p' && "-i"@[1] == 'i');
}

proof fn lemma_five(
    a: Seq<char>,
    ip: Seq<char>,
    b: Seq<char>,
    d: Seq<char>,
    c: Seq<char>,
    port: u16,
)
    requires
        is_ip_option(a),
        is_port_option(b) && !is_ip_option(b),
        is_debug_option(c),
        port_number(d) == Some(port),
    ensures
        apply_args(default_settings(), seq![a, ip, b, d, c]) == (SettingsModel {
            ip,
            port,
            level: LogLevel::Debug,
            warnings: Seq::empty(),
        }),
{
    let all = seq![a, ip, b, d, c];
    let s0 = default_settings();
    let s1 = SettingsModel { ip, ..s0 };
    let s2 = SettingsModel { port, ..s1 };
    let s3 = SettingsModel { level: LogLevel::Debug, ..s2 };
    assert(all.subrange(2, 5) =~= seq![b, d, c]);
    assert(seq![b, d, c].subrange(2, 3) =~= seq![c]);
    assert(seq![c].subrange(1, 1) =~= Seq::<Seq<char>>::empty());
    assert(apply_args(s3, Seq::empty()) == s3);
    assert(apply_args(s2, seq![c]) == s3);
    assert(apply_args(s1, seq![b, d, c]) == s3);
    assert(apply_args(s0, all) == s3);
}

/// No option at the end of `args` waits for its value.
pub open spec fn is_complete(args: Seq<Seq<char>>) -> bool
    decreases args.len(),
{
    if args.len() == 0 {
        true
    } else if is_ip_option(args[0]) || is_port_option(args[0]) {
        args.len() > 1 && is_complete(args.subrange(2, args.len() as int))
    } else {
        is_complete(args.subrange(1, args.len() as int))
    }
}

/// Arguments apply in their order: those behind others apply to what these have set, so that
/// the last word counts.
pub proof fn law_arguments_apply_in_order(
    s: SettingsModel,
    first: Seq<Seq<char>>,
    more: Seq<Seq<char>>,
)
    requires
        is_complete(first),
    ensures
        apply_args(s, first + more) == apply_args(apply_args(s, first), more),
    decreases first.len(),
{
    let all = first + more;
    if first.len() == 0 {
        assert(all =~= more);
    } else {
        let a = first[0];
        assert(all[0] == a);
        assert(all.subrange(1, all.len() as int) =~= first.subrange(1, first.len() as int) + more);
        if is_ip_option(a) || is_port_option(a) {
            let rest = first.subrange(2, first.len() as int);
            assert(all[1] == first[1]);
            assert(all.subrange(2, all.len() as int) =~= rest + more);
            if is_ip_option(a) {
                law_arguments_apply_in_order(SettingsModel { ip: first[1], ..s }, rest, more);
            } else {
                law_arguments_apply_in_order(
                    with_port(s, first[1], WarningModel::BadPort(first[1])),
                    rest,
                    more,
                );
            }
        } else {
            let rest = first.subrange(1, first.len() as int);
            if is_debug_option(a) {
                law_arguments_apply_in_order(
                    SettingsModel { level: LogLevel::Debug, ..s },
                    rest,
                    more,
                );
            } else {
                law_arguments_apply_in_order(
                    with_port(s, a, WarningModel::UnknownArgument(a)),
                    rest,
                    more,
                );
            }
        }
    }
}

/// A port that stands alone sets the port.
pub proof fn law_bare_port(s: SettingsModel, port: u16)
    ensures
        apply_args(s, seq![decimal(port as int)]) == (SettingsModel { port, ..s }),
{
    law_port_reads_back(port);
    let d = decimal(port as int);
    reveal_strlit("--debug");
    reveal_strlit("-d");
    assert(is_digit(d[0]));
    assert("--debug"@[0] == '-' && "-d"@[0] == '-');
    assert(seq![d].subrange(1, 1) =~= Seq::<Seq<char>>::empty());
    assert(apply_args(SettingsModel { port, ..s }, Seq::empty()) == SettingsModel { port, ..s });
}

/// Without arguments the proxy listens on port 8080 of the local host and logs little.
pub proof fn law_no_arguments(s: SettingsModel)
    ensures
        apply_args(s, Seq::empty()) == s,
        default_settings().ip == "127.0.0.1"@,
        default_settings().port == 8080,
        default_settings().level is Info,
        default_settings().warnings.len() == 0,
{
}

/// What stands behind the option for the address is the address, be it one or not, and what
/// follows applies as if the option had not been there.
pub proof fn law_address_option(s: SettingsModel, value: Seq<char>, rest: Seq<Seq<char>>)
    ensures
        apply_args(s, seq!["--ip"@, value] + rest) == apply_args(
            SettingsModel { ip: value, ..s },
            rest,
        ),
        apply_args(s, seq!["-i"@, value] + rest) == apply_args(
            SettingsModel { ip: value, ..s },
            rest,
        ),
{
    lemma_two_behind("--ip"@, value, rest);
    lemma_two_behind("-i"@, value, rest);
}

/// What stands behind the option for the port is the port where it writes one; where it does
/// not, the port stays, and there is a warning that tells what stood there.
pub proof fn law_port_option(s: SettingsModel, value: Seq<char>, rest: Seq<Seq<char>>)
    ensures
        port_number(value) matches Some(port) ==> {
            &&& apply_args(s, seq!["--port"@, value] + rest) == apply_args(
                SettingsModel { port, ..s },
                rest,
            )
            &&& apply_args(s, seq!["-p"@, value] + rest) == apply_args(
                SettingsModel { port, ..s },
                rest,
            )
        },
        port_number(value) is None ==> {
            let warned = SettingsModel {
                warnings: s.warnings.push(WarningModel::BadPort(value)),
                ..s
            };
            &&& apply_args(s, seq!["--port"@, value] + rest) == apply_args(warned, rest)
            &&& apply_args(s, seq!["-p"@, value] + rest) == apply_args(warned, rest)
        },
{
    lemma_options_differ();
    lemma_two_behind("--port"@, value, rest);
    lemma_two_behind("-p"@, value, rest);
}

/// The option for more logging sets that and nothing else.
pub proof fn law_debug_option(s: SettingsModel, rest: Seq<Seq<char>>)
    ensures
        apply_args(s, seq!["--debug"@] + rest) == apply_args(
            SettingsModel { level: LogLevel::Debug, ..s },
            rest,
        ),
        apply_args(s, seq!["-d"@] + rest) == apply_args(
            SettingsModel { level: LogLevel::Debug, ..s },
            rest,
        ),
{
    lemma_debug_differs();
    lemma_one_behind("--debug"@, rest);
    lemma_one_behind("-d"@, rest);
}

/// Any other argument, and an option at the end that waits for its value, sets the port where
/// it writes one; where it does not, all settings stay, and there is a warning that tells it.
pub proof fn law_other_argument(s: SettingsModel, a: Seq<char>, rest: Seq<Seq<char>>)
    requires
        a != "--debug"@ && a != "-d"@,
        rest.len() == 0 || (a != "--ip"@ && a != "-i"@ && a != "--port"@ && a != "-p"@),
    ensures
        port_number(a) matches Some(port) ==> apply_args(s, seq![a] + rest) == apply_args(
            SettingsModel { port, ..s },
            rest,
        ),
        port_number(a) is None ==> apply_args(s, seq![a] + rest) == apply_args(
            SettingsModel { warnings: s.warnings.push(WarningModel::UnknownArgument(a)), ..s },
            rest,
        ),
{
    lemma_one_behind(a, rest);
}

/// The arguments are all that stands on the command line behind the name of the program.
pub proof fn law_arguments_follow_the_name(args: Seq<String>)
    ensures
        args.len() == 0 ==> arguments(args).len() == 0,
        args.len() > 0 ==> arguments(args).len() == args.len() - 1,
        forall|i: int| 0 <= i < args.len() - 1 ==> #[trigger] arguments(args)[i] == args[i + 1]@,
{
}

/// An address that is none gives way to 127.0.0.1, with a warning that tells it; one that is
/// an address stays. Nothing else changes.
pub proof fn law_check_address(given: Settings, valid: bool, s: Settings)
    requires
        call_ensures(Settings::check_address, (given, valid), s),
    ensures
        valid ==> s@ == given@,
        !valid ==> {
            &&& s@.ip == "127.0.0.1"@
            &&& s@.warnings == given@.warnings.push(WarningModel::BadAddress(given@.ip))
        },
        s@.port == given@.port,
        s@.level == given@.level,
{
}

proof fn lemma_one_behind(a: Seq<char>, rest: Seq<Seq<char>>)
    ensures
        (seq![a] + rest)[0] == a,
        (seq![a] + rest).subrange(1, rest.len() as int + 1) == rest,
{
    assert((seq![a] + rest).subrange(1, rest.len() as int + 1) =~= rest);
}

proof fn lemma_two_behind(a: Seq<char>, b: Seq<char>, rest: Seq<Seq<char>>)
    ensures
        (seq![a, b] + rest)[0] == a,
        (seq![a, b] + rest)[1] == b,
        (seq![a, b] + rest).subrange(2, rest.len() as int + 2) == rest,
{
    assert((seq![a, b] + rest).subrange(2, rest.len() as int + 2) =~= rest);
}

proof fn lemma_debug_differs()
    ensures
        !is_ip_option("--debug"@),
        !is_ip_option("-d"@),
        !is_port_option("--debug"@),
        !is_port_option("-d"@),
{
    reveal_strlit("--ip");
    reveal_strlit("-i");
    reveal_strlit("--port");
    reveal_strlit("-p");
    reveal_strlit("--debug");
    reveal_strlit("-d");
    assert("--debug"@.len() == 7 && "--ip"@.len() == 4 && "-i"@.len() == 2);
    assert("--port"@.len() == 6 && "-p"@.len() == 2 && "-d"@.len() == 2);
    assert("-p"@[1] == 'p' && "-i"@[1] == 'i' && "-d"@[1] == 'd');
}

/// What is said of settings and of warnings is said of what their fields hold.
pub proof fn law_settings_are_their_fields(s: Settings, w: Warning)
    ensures
        s@.ip == s.ip@ && s@.port == s.port && s@.level == s.level,
        s@.warnings.len() == s.warnings@.len(),
        forall|i: int| 0 <= i < s.warnings@.len() ==> s@.warnings[i] == #[trigger] s.warnings@[i]@,
        match w {
            Warning::BadPort(a) => w@ == WarningModel::BadPort(a@),
            Warning::UnknownArgument(a) => w@ == WarningModel::UnknownArgument(a@),
            Warning::BadAddress(a) => w@ == WarningModel::BadAddress(a@),
        },
{
}

} // verus!
