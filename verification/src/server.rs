use vstd::prelude::*;
use vstd::string::StrSliceExecFns;
use vstd::string::StringExecFns;
use crate::cli_error::CliError;
use crate::strutil::str_eq_str;
use crate::tokenizer::is_digit;

verus! {

/// A failure while reading the server's command line arguments.
#[derive(Debug)]
pub enum ServerError {
    BadArguments { message: String },
}

impl CliError for ServerError {
    /// Renders the error as a one-line diagnostic string.
    fn string(&self) -> (r: String)
        ensures
            r@ == match self {
                ServerError::BadArguments { message } => "BadArguments: "@ + message@,
            },
    {
        match self {
            ServerError::BadArguments { message } => String::from_str("BadArguments: ").concat(
                message.as_str(),
            ),
        }
    }
}

/// One HTTP request, reduced to the parts the server routes on.
pub struct Request<'a> {
    /// The entire URL (not including the scheme nor server address).
    pub url: &'a str,
    /// Whether or not the scheme is HTTPS.
    pub secure: bool,
    /// The path that is being requested. Its first character is always `/`;
    /// with no explicit path after the domain and port, it is `/`.
    pub path: &'a str,
    /// The URL parameters, each an entry name with an optional value.
    pub params: Vec<(&'a str, Option<&'a str>)>,
}

/// One HTTP response, reduced to the parts the server produces.
pub struct Response {
    /// The HTTP response status code.
    pub status: u16,
    /// The response body.
    pub body: String,
    /// The `Content-Type` header, as its two slash-separated parts.
    pub content_type: (&'static str, &'static str),
}

/// The settings a server run starts with.
#[derive(Debug)]
pub struct ServerOptions {
    pub address: String,
    pub port: u16,
    pub silent: bool,
}

// ---------------------------------------------------------------------------
// Reading the server's arguments.
// ---------------------------------------------------------------------------

/// The numeric value of a run of decimal digit characters, most significant
/// first.
pub open spec fn numeral_value(ds: Seq<char>) -> int
    decreases ds.len(),
{
    if ds.len() == 0 {
        0
    } else {
        numeral_value(ds.drop_last()) * 10 + (ds.last() as int - '0' as int)
    }
}

/// The digits of `s` with an optional leading `+` sign removed.
pub open spec fn numeral_digits(s: Seq<char>) -> Seq<char> {
    if s.len() > 0 && s[0] == '+' {
        s.drop_first()
    } else {
        s
    }
}

/// Whether `s` is what `u16` parsing accepts: an optional `+` sign followed
/// by one or more digits, with a value that fits.
pub open spec fn is_u16_numeral(s: Seq<char>) -> bool {
    &&& numeral_digits(s).len() > 0
    &&& (forall|i: int|
        0 <= i < numeral_digits(s).len() ==> is_digit(#[trigger] numeral_digits(s)[i]))
    &&& numeral_value(numeral_digits(s)) <= u16::MAX
}

/// A digit run's value never shrinks when it grows on the right.
proof fn lemma_numeral_grows(ds: Seq<char>, i: int)
    requires
        0 <= i <= ds.len(),
        forall|k: int| 0 <= k < ds.len() ==> is_digit(#[trigger] ds[k]),
    ensures
        numeral_value(ds.subrange(0, i)) <= numeral_value(ds),
        numeral_value(ds.subrange(0, i)) >= 0,
        numeral_value(ds) >= 0,
    decreases ds.len() - i,
{
    if i < ds.len() {
        assert(ds.subrange(0, i + 1).drop_last() =~= ds.subrange(0, i));
        assert(ds.subrange(0, i + 1).last() == ds[i]);
        lemma_numeral_grows(ds, i + 1);
        assert(numeral_value(ds.subrange(0, i)) >= 0) by {
            lemma_numeral_nonneg(ds.subrange(0, i));
        }
    } else {
        assert(ds.subrange(0, i) =~= ds);
        lemma_numeral_nonneg(ds);
    }
}

proof fn lemma_numeral_nonneg(ds: Seq<char>)
    requires
        forall|k: int| 0 <= k < ds.len() ==> is_digit(#[trigger] ds[k]),
    ensures
        numeral_value(ds) >= 0,
    decreases ds.len(),
{
    if ds.len() > 0 {
        assert(forall|k: int|
            0 <= k < ds.drop_last().len() ==> is_digit(#[trigger] ds.drop_last()[k]));
        lemma_numeral_nonneg(ds.drop_last());
    }
}

/// Parses a port number the way `u16` parsing does: an optional `+` sign
/// then digits, rejecting anything else and any value that does not fit.
pub fn parse_port(s: &str) -> (r: Option<u16>)
    ensures
        r == if is_u16_numeral(s@) {
            Some(numeral_value(numeral_digits(s@)) as u16)
        } else {
            None::<u16>
        },
{
    let n = s.unicode_len();
    let start: usize = if n > 0 && s.get_char(0) == '+' {
        1
    } else {
        0
    };
    let ghost ds = numeral_digits(s@);
    proof {
        assert(ds =~= s@.subrange(start as int, n as int));
    }
    if n == start {
        return None;
    }
    let mut value: u32 = 0;
    let mut i = start;
    while i < n
        invariant
            ds == numeral_digits(s@),
            ds =~= s@.subrange(start as int, n as int),
            n == s@.len(),
            start <= i <= n,
            forall|k: int| 0 <= k < i - start ==> is_digit(#[trigger] ds[k]),
            value <= u16::MAX,
            value as int == numeral_value(ds.subrange(0, i - start)),
        decreases n - i,
    {
        let c = s.get_char(i);
        if !('0' <= c && c <= '9') {
            proof {
                assert(ds[i - start] == c);
                assert(!is_digit(numeral_digits(s@)[i - start]));
                assert(!is_u16_numeral(s@));
            }
            return None;
        }
        let d = (c as u32) - 48;
        proof {
            assert(ds[i - start] == c);
            assert(ds.subrange(0, i - start + 1).drop_last() =~= ds.subrange(0, i - start));
            assert(ds.subrange(0, i - start + 1).last() == c);
        }
        let next = value * 10 + d;
        if next > u16::MAX as u32 {
            // every longer run of digits is at least as large
            proof {
                assert(numeral_value(ds.subrange(0, i - start + 1)) == next as int);
                if is_u16_numeral(s@) {
                    assert(forall|k: int|
                        0 <= k < ds.len() ==> is_digit(#[trigger] numeral_digits(s@)[k]));
                    assert(forall|k: int| 0 <= k < ds.len() ==> is_digit(#[trigger] ds[k]));
                    lemma_numeral_grows(ds, i - start + 1);
                    assert(numeral_value(ds) >= next as int);
                    assert(false);
                }
            }
            return None;
        }
        value = next;
        i = i + 1;
    }
    proof {
        assert(ds.subrange(0, n - start) =~= ds);
    }
    Some(value as u16)
}

/// What one run over the argument list yields: the bind address, the port
/// and the silent flag, each falling back to its default when absent, or
/// the first bad argument's diagnostic.
pub open spec fn spec_process_args(
    args: Seq<Seq<char>>,
    i: int,
    address: Option<Seq<char>>,
    port: Option<u16>,
    silent: Option<bool>,
) -> Result<(Seq<char>, u16, bool), Seq<char>>
    decreases args.len() - i,
{
    if i >= args.len() {
        Ok(
            (
                match address {
                    Some(a) => a,
                    None => "localhost"@,
                },
                match port {
                    Some(p) => p,
                    None => 8080u16,
                },
                match silent {
                    Some(s) => s,
                    None => false,
                },
            ),
        )
    } else if args[i] == "--bind"@ {
        if address is Some {
            Err("too many --bind arguments"@)
        } else if i + 1 < args.len() {
            spec_process_args(args, i + 2, Some(args[i + 1]), port, silent)
        } else {
            spec_process_args(args, i + 1, address, port, silent)
        }
    } else if args[i] == "--silent"@ {
        if silent is Some {
            Err("too many --silent arguments"@)
        } else {
            spec_process_args(args, i + 1, address, port, Some(true))
        }
    } else if port is None && is_u16_numeral(args[i]) {
        spec_process_args(
            args,
            i + 1,
            address,
            Some(numeral_value(numeral_digits(args[i])) as u16),
            silent,
        )
    } else {
        Err("unexpected argument `"@ + args[i] + "`"@)
    }
}

/// The views of a list of argument strings.
pub open spec fn args_view(args: Seq<String>) -> Seq<Seq<char>> {
    args.map_values(|a: String| a@)
}

/// Processes the server arguments: `--bind` takes the next argument as the
/// address, `--silent` sets the silent flag, a lone number sets the port,
/// and anything else (or a repeated setting) is rejected.
#[verifier::loop_isolation(false)]
pub fn process_args(args: &[String]) -> (r: Result<ServerOptions, ServerError>)
    ensures
        match r {
            Ok(options) => spec_process_args(args_view(args@), 0, None, None, None) == Ok::<
                (Seq<char>, u16, bool),
                Seq<char>,
            >((options.address@, options.port, options.silent)),
            Err(ServerError::BadArguments { message }) => spec_process_args(
                args_view(args@),
                0,
                None,
                None,
                None,
            ) == Err::<(Seq<char>, u16, bool), Seq<char>>(message@),
        },
{
    let ghost av = args_view(args@);
    let mut address: Option<String> = None;
    let mut port: Option<u16> = None;
    let mut silent: Option<bool> = None;
    let mut i: usize = 0;
    while i < args.len()
        invariant
            0 <= i <= args@.len(),
            spec_process_args(av, 0, None, None, None) == spec_process_args(
                av,
                i as int,
                crate::parser::str_opt_view(address),
                port,
                silent,
            ),
        decreases args@.len() - i,
    {
        let arg = &args[i];
        if str_eq_str(arg.as_str(), "--bind") {
            match address {
                None => {
                    if i + 1 < args.len() {
                        address = Some(args[i + 1].clone());
                        i = i + 2;
                    } else {
                        i = i + 1;
                    }
                },
                Some(_) => {
                    return Err(
                        ServerError::BadArguments {
                            message: String::from_str("too many --bind arguments"),
                        },
                    );
                },
            }
        } else if str_eq_str(arg.as_str(), "--silent") {
            match silent {
                None => {
                    silent = Some(true);
                    i = i + 1;
                },
                Some(_) => {
                    return Err(
                        ServerError::BadArguments {
                            message: String::from_str("too many --silent arguments"),
                        },
                    );
                },
            }
        } else {
            let new_port = parse_port(arg.as_str());
            match (port, new_port) {
                (None, Some(p)) => {
                    port = Some(p);
                    i = i + 1;
                },
                _ => {
                    let mut message = String::from_str("unexpected argument `");
                    message.append(arg.as_str());
                    message.push('`');
                    proof {
                        reveal_strlit("`");
                        assert(message@ =~= "unexpected argument `"@ + arg@ + "`"@);
                    }
                    return Err(ServerError::BadArguments { message });
                },
            }
        }
    }
    let address_out = match address {
        Some(a) => a,
        None => String::from_str("localhost"),
    };
    let port_out = match port {
        Some(p) => p,
        None => 8080,
    };
    let silent_out = match silent {
        Some(s) => s,
        None => false,
    };
    Ok(ServerOptions { address: address_out, port: port_out, silent: silent_out })
}

} // verus!
