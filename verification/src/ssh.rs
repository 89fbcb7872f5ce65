//! Command lines for running experiments on a remote host over `ssh`:
//! the arguments handed to the `ssh` program and the shell command run on
//! the remote side, with every interpolated value quoted for the shell.

use vstd::prelude::*;
use vstd::relations::*;
use crate::text::{blank, chars_le, chars_of, decimal, decimal_chars, extend_str, is_blank, lemma_seq_le_antisymmetric, pair_views, lemma_seq_le_reflexive, lemma_seq_le_total, lemma_seq_le_transitive, seq_le, string_of};

verus! {

// ---------------------------------------------------------------------------
// Configuration
// ---------------------------------------------------------------------------

/// Configuration of the SSH compute backend.
pub struct SshConfig {
    /// `user@host`, or any `Host` alias of the user's ssh configuration.
    pub host: String,
    /// Directory on the remote host that the command runs in.
    pub remote_workdir: Option<String>,
    /// Private key file handed to `ssh -i`.
    pub identity_file: Option<String>,
    /// Port, when it is not the default one.
    pub port: Option<u16>,
    /// Extra `-o` options, passed on verbatim.
    pub options: Vec<String>,
}

impl Default for SshConfig {
    fn default() -> (r: Self)
        ensures
            r.host@ == Seq::<char>::empty(),
            r.remote_workdir is None,
            r.identity_file is None,
            r.port is None,
            r.options@.len() == 0,
    {
        SshConfig {
            host: String::new(),
            remote_workdir: None,
            identity_file: None,
            port: None,
            options: Vec::new(),
        }
    }
}

/// Why a backend could not be built.
#[derive(Debug, PartialEq, Eq)]
pub enum SshError {
    /// The configured host is empty or all white space.
    EmptyHost,
}

impl SshError {
    /// A sentence describing the error.
    pub fn message(&self) -> (r: String)
        ensures
            r@ == "ssh backend: 'host' must not be empty"@,
    {
        "ssh backend: 'host' must not be empty".to_owned()
    }
}

/// Compute backend that runs experiments on a remote host over `ssh`.
pub struct SshBackend {
    config: SshConfig,
    home: Option<String>,
}

/// The view of an optional string.
pub open spec fn opt_view(o: Option<String>) -> Option<Seq<char>> {
    match o {
        Some(s) => Some(s@),
        None => None,
    }
}

/// The views of a sequence of strings.
pub open spec fn views(v: Seq<String>) -> Seq<Seq<char>> {
    v.map_values(|s: String| s@)
}

impl SshBackend {
    /// The configuration the backend was built from.
    pub closed spec fn spec_config(&self) -> SshConfig {
        self.config
    }

    /// The home directory that a leading `~/` of the identity file expands to.
    pub closed spec fn spec_home(&self) -> Option<Seq<char>> {
        opt_view(self.home)
    }

    /// Builds a backend; refuses a host that is empty or all white space.
    /// A backend built here expands no `~/` until `with_home` gives it a home.
    pub fn new(config: SshConfig) -> (r: Result<SshBackend, SshError>)
        ensures
            is_blank(config.host@) <==> r is Err,
            r is Err ==> r == Err::<SshBackend, SshError>(SshError::EmptyHost),
            r matches Ok(b) ==> b.spec_config() == config && b.spec_home() is None,
    {
        if blank(config.host.as_str()) {
            Err(SshError::EmptyHost)
        } else {
            Ok(SshBackend { config, home: None })
        }
    }

    /// The same backend, expanding a leading `~/` of the identity file to `home`.
    pub fn with_home(self, home: Option<String>) -> (r: SshBackend)
        ensures
            r.spec_config() == self.spec_config(),
            r.spec_home() == opt_view(home),
    {
        SshBackend { config: self.config, home }
    }

    /// The argument vector passed to the `ssh` program.
    pub fn build_argv(&self, remote_command: &str) -> (r: Vec<String>)
        ensures
            views(r@) == argv(
                self.spec_config().host@,
                views(self.spec_config().options@),
                self.spec_config().port,
                opt_view(self.spec_config().identity_file),
                self.spec_home(),
                remote_command@,
            ),
    {
        let mut args: Vec<String> = Vec::new();
        args.push("-o".to_owned());
        args.push("BatchMode=yes".to_owned());
        assert(views(args@) =~= seq!["-o"@, "BatchMode=yes"@]);
        let ghost opts = views(self.config.options@);
        let mut i: usize = 0;
        while i < self.config.options.len()
            invariant
                i <= self.config.options.len(),
                opts == views(self.config.options@),
                views(args@) == seq!["-o"@, "BatchMode=yes"@] + option_args(opts.take(i as int)),
            decreases self.config.options.len() - i,
        {
            let ghost before = views(args@);
            args.push("-o".to_owned());
            args.push(self.config.options[i].clone());
            proof {
                opts.lemma_flat_map_take_append(|o: Seq<char>| seq!["-o"@, o], i as int);
                assert(views(args@) =~= before + seq!["-o"@, opts[i as int]]);
            }
            i += 1;
        }
        assert(opts.take(opts.len() as int) =~= opts);
        let ghost base = views(args@);
        match self.config.port {
            Some(p) => {
                args.push("-p".to_owned());
                let digits = decimal_chars(p as u64);
                args.push(string_of(&digits));
            },
            None => {},
        }
        let ghost with_port = views(args@);
        assert(with_port =~= base + port_args(self.config.port));
        match &self.config.identity_file {
            Some(identity) => {
                args.push("-i".to_owned());
                let home = match &self.home {
                    Some(h) => Some(h.as_str()),
                    None => None,
                };
                args.push(expand_tilde(identity.as_str(), home));
            },
            None => {},
        }
        let ghost with_identity = views(args@);
        assert(with_identity =~= with_port + identity_args(
            opt_view(self.config.identity_file),
            opt_view(self.home),
        ));
        args.push(self.config.host.clone());
        args.push(remote_command.to_owned());
        assert(views(args@) =~= with_identity + seq![self.config.host@, remote_command@]);
        args
    }

    /// The shell command run on the remote host: change into the working
    /// directory when one is set, then the environment assignments sorted by
    /// variable name, then the command.
    pub fn build_remote_command(&self, command: &str, env: &[(String, String)]) -> (r: String)
        ensures
            r@ == remote_command_line(
                opt_view(self.spec_config().remote_workdir),
                pair_views(env@),
                command@,
            ),
    {
        let mut out: Vec<char> = Vec::new();
        match &self.config.remote_workdir {
            Some(dir) => {
                extend_str(&mut out, "cd ");
                let esc = shell_escape(dir.as_str());
                extend_str(&mut out, esc.as_str());
                extend_str(&mut out, " && ");
            },
            None => {},
        }
        let ghost cd = out@;
        assert(cd == workdir_prefix(opt_view(self.config.remote_workdir)));
        let sorted = sort_env(env);
        let ghost sv = pair_views(env@).sort_by(env_order());
        let mut i: usize = 0;
        while i < sorted.len()
            invariant
                i <= sorted.len(),
                sv == pair_views(env@).sort_by(env_order()),
                pair_views(sorted@) == sv,
                out@ == cd + sv.take(i as int).flat_map(|p: (Seq<char>, Seq<char>)| assignment(p)),
            decreases sorted.len() - i,
        {
            let ghost before = out@;
            extend_str(&mut out, sorted[i].0.as_str());
            extend_str(&mut out, "=");
            let esc = shell_escape(sorted[i].1.as_str());
            extend_str(&mut out, esc.as_str());
            extend_str(&mut out, " ");
            proof {
                assert(sv[i as int] == (sorted@[i as int].0@, sorted@[i as int].1@));
                sv.lemma_flat_map_take_append(|p: (Seq<char>, Seq<char>)| assignment(p), i as int);
                assert(out@ =~= before + assignment(sv[i as int]));
            }
            i += 1;
        }
        assert(sv.take(sv.len() as int) =~= sv);
        extend_str(&mut out, command);
        string_of(&out)
    }
}

// ---------------------------------------------------------------------------
// Specifications of the command lines
// ---------------------------------------------------------------------------

/// `-o <option>` for each extra option, in order.
pub open spec fn option_args(opts: Seq<Seq<char>>) -> Seq<Seq<char>> {
    opts.flat_map(|o: Seq<char>| seq!["-o"@, o])
}

/// `-p <port>` when a port is set.
pub open spec fn port_args(port: Option<u16>) -> Seq<Seq<char>> {
    match port {
        Some(p) => seq!["-p"@, decimal(p as nat)],
        None => seq![],
    }
}

/// `-i <identity file>` when one is set, with a leading `~/` expanded.
pub open spec fn identity_args(identity: Option<Seq<char>>, home: Option<Seq<char>>) -> Seq<
    Seq<char>,
> {
    match identity {
        Some(id) => seq!["-i"@, tilde_expanded(id, home)],
        None => seq![],
    }
}

/// The whole argument vector: batch mode first (so that a misconfigured
/// host fails at once instead of prompting), the extra options, port and
/// identity, then the host and the remote command.
pub open spec fn argv(
    host: Seq<char>,
    options: Seq<Seq<char>>,
    port: Option<u16>,
    identity: Option<Seq<char>>,
    home: Option<Seq<char>>,
    remote_command: Seq<char>,
) -> Seq<Seq<char>> {
    seq!["-o"@, "BatchMode=yes"@] + option_args(options) + port_args(port) + identity_args(
        identity,
        home,
    ) + seq![host, remote_command]
}

/// A character that needs no quoting in a POSIX shell word.
pub open spec fn is_shell_safe(c: char) -> bool {
    ('a' <= c && c <= 'z') || ('A' <= c && c <= 'Z') || ('0' <= c && c <= '9') || c == '_' || c
        == '-' || c == '.' || c == '/' || c == ':' || c == '='
}

/// Inside single quotes, each single quote becomes `'\''`.
pub open spec fn quote_piece(c: char) -> Seq<char> {
    if c == '\'' {
        seq!['\'', '\\', '\'', '\'']
    } else {
        seq![c]
    }
}

/// `s` quoted so that a POSIX shell reads it back as one word equal to `s`:
/// `''` for the empty string, `s` itself when every character is safe,
/// otherwise `s` in single quotes with each single quote written `'\''`.
pub open spec fn shell_escaped(s: Seq<char>) -> Seq<char> {
    if s.len() == 0 {
        seq!['\'', '\'']
    } else if forall|i: int| 0 <= i < s.len() ==> is_shell_safe(#[trigger] s[i]) {
        s
    } else {
        seq!['\''] + quote_pieces(s) + seq!['\'']
    }
}

/// Every character of `s` as it is written inside single quotes.
pub open spec fn quote_pieces(s: Seq<char>) -> Seq<char> {
    s.flat_map(|c: char| quote_piece(c))
}

/// `path` with a leading `~/` replaced by `home` followed by `/`, when a
/// home directory is known; otherwise `path` unchanged.
pub open spec fn tilde_expanded(path: Seq<char>, home: Option<Seq<char>>) -> Seq<char> {
    if path.len() >= 2 && path[0] == '~' && path[1] == '/' && home is Some {
        home->0 + seq!['/'] + path.skip(2)
    } else {
        path
    }
}

/// Assignments ordered by variable name, then by value.
pub open spec fn pair_le(p: (Seq<char>, Seq<char>), q: (Seq<char>, Seq<char>)) -> bool {
    if p.0 == q.0 {
        seq_le(p.1, q.1)
    } else {
        seq_le(p.0, q.0)
    }
}

/// `pair_le` as a relation.
pub open spec fn env_order() -> spec_fn((Seq<char>, Seq<char>), (Seq<char>, Seq<char>)) -> bool {
    |p: (Seq<char>, Seq<char>), q: (Seq<char>, Seq<char>)| pair_le(p, q)
}

/// One `NAME=value ` assignment, the value quoted.
pub open spec fn assignment(p: (Seq<char>, Seq<char>)) -> Seq<char> {
    p.0 + "="@ + shell_escaped(p.1) + " "@
}

/// `cd <dir> && ` when a working directory is set.
pub open spec fn workdir_prefix(workdir: Option<Seq<char>>) -> Seq<char> {
    match workdir {
        Some(d) => "cd "@ + shell_escaped(d) + " && "@,
        None => seq![],
    }
}

/// The remote shell command line.
pub open spec fn remote_command_line(
    workdir: Option<Seq<char>>,
    env: Seq<(Seq<char>, Seq<char>)>,
    command: Seq<char>,
) -> Seq<char> {
    workdir_prefix(workdir) + env.sort_by(env_order()).flat_map(
        |p: (Seq<char>, Seq<char>)| assignment(p),
    ) + command
}

/// `env_order` is a total order, so the sorted assignments are determined.
pub proof fn lemma_env_order_total()
    ensures
        total_ordering(env_order()),
{
    let r = env_order();
    assert forall|x: (Seq<char>, Seq<char>)| #[trigger] r(x, x) by {
        lemma_seq_le_reflexive(x.1);
    }
    assert forall|x: (Seq<char>, Seq<char>), y: (Seq<char>, Seq<char>)|
        #[trigger] r(x, y) && #[trigger] r(y, x) implies x == y by {
        if x.0 == y.0 {
            lemma_seq_le_antisymmetric(x.1, y.1);
        } else {
            lemma_seq_le_antisymmetric(x.0, y.0);
        }
    }
    assert forall|x: (Seq<char>, Seq<char>), y: (Seq<char>, Seq<char>), z: (Seq<char>, Seq<char>)|
        #[trigger] r(x, y) && #[trigger] r(y, z) implies r(x, z) by {
        if x.0 == y.0 && y.0 == z.0 {
            lemma_seq_le_transitive(x.1, y.1, z.1);
        } else if x.0 == y.0 {
            assert(seq_le(y.0, z.0));
        } else if y.0 == z.0 {
            assert(seq_le(x.0, y.0));
        } else {
            lemma_seq_le_transitive(x.0, y.0, z.0);
            if x.0 == z.0 {
                lemma_seq_le_antisymmetric(x.0, y.0);
            }
        }
    }
    assert forall|x: (Seq<char>, Seq<char>), y: (Seq<char>, Seq<char>)|
        #[trigger] r(x, y) || #[trigger] r(y, x) by {
        lemma_seq_le_total(x.0, y.0);
        lemma_seq_le_total(x.1, y.1);
    }
}

/// The remote command line does not depend on the order in which the
/// environment is given: any rearrangement of the same assignments renders
/// the same command.
pub proof fn lemma_remote_command_order_free(
    workdir: Option<Seq<char>>,
    a: Seq<(Seq<char>, Seq<char>)>,
    b: Seq<(Seq<char>, Seq<char>)>,
    command: Seq<char>,
)
    requires
        a.to_multiset() == b.to_multiset(),
    ensures
        remote_command_line(workdir, a, command) == remote_command_line(workdir, b, command),
{
    let le = env_order();
    lemma_env_order_total();
    a.lemma_sort_by_ensures(le);
    b.lemma_sort_by_ensures(le);
    vstd::seq_lib::lemma_sorted_unique(a.sort_by(le), b.sort_by(le), le);
}

// ---------------------------------------------------------------------------
// How a POSIX shell reads a word back
// ---------------------------------------------------------------------------

/// `c` in front of the word read, if any.
pub open spec fn prepend(c: char, w: Option<Seq<char>>) -> Option<Seq<char>> {
    match w {
        Some(x) => Some(seq![c] + x),
        None => None,
    }
}

/// The word a POSIX shell reads from `s` when `s` is to be one word: safe
/// characters stand for themselves, a backslash takes the next character
/// literally, and single quotes take everything up to the next single quote
/// literally. `None` when `s` holds anything else (a character the shell
/// would treat specially, or an unfinished quote or escape).
pub open spec fn shell_word(s: Seq<char>) -> Option<Seq<char>>
    decreases s.len(),
{
    if s.len() == 0 {
        Some(seq![])
    } else if s[0] == '\'' {
        in_quotes(s.drop_first())
    } else if s[0] == '\\' {
        if s.len() >= 2 {
            prepend(s[1], shell_word(s.skip(2)))
        } else {
            None
        }
    } else if is_shell_safe(s[0]) {
        prepend(s[0], shell_word(s.drop_first()))
    } else {
        None
    }
}

/// The rest of a word read from inside single quotes.
pub open spec fn in_quotes(s: Seq<char>) -> Option<Seq<char>>
    decreases s.len(),
{
    if s.len() == 0 {
        None
    } else if s[0] == '\'' {
        shell_word(s.drop_first())
    } else {
        prepend(s[0], in_quotes(s.drop_first()))
    }
}

/// `t` in front of the word read, if any.
pub open spec fn prepend_all(t: Seq<char>, w: Option<Seq<char>>) -> Option<Seq<char>> {
    match w {
        Some(x) => Some(t + x),
        None => None,
    }
}

proof fn lemma_quote_pieces_split(t: Seq<char>)
    ensures
        t.len() == 0 ==> quote_pieces(t) == Seq::<char>::empty(),
        t.len() > 0 ==> quote_pieces(t) == quote_piece(t[0]) + quote_pieces(t.drop_first()),
{
    if t.len() == 0 {
        assert(t.map_values(|c: char| quote_piece(c)) =~= Seq::<Seq<char>>::empty());
    } else {
        assert(t.map_values(|c: char| quote_piece(c)).drop_first() =~= t.drop_first().map_values(
            |c: char| quote_piece(c),
        ));
        assert(t.map_values(|c: char| quote_piece(c)).first() == quote_piece(t[0]));
    }
}

proof fn lemma_quoted_pieces(t: Seq<char>, rest: Seq<char>)
    ensures
        in_quotes(quote_pieces(t) + seq!['\''] + rest) == prepend_all(t, shell_word(rest)),
    decreases t.len(),
{
    lemma_quote_pieces_split(t);
    if t.len() == 0 {
        let s = quote_pieces(t) + seq!['\''] + rest;
        assert(s =~= seq!['\''] + rest);
        assert(s[0] == '\'');
        assert(s.drop_first() =~= rest);
        assert(in_quotes(s) == shell_word(rest));
        match shell_word(rest) {
            Some(x) => assert(t + x =~= x),
            None => {},
        }
    } else {
        let c = t[0];
        let u = t.drop_first();
        lemma_quoted_pieces(u, rest);
        let tail = quote_pieces(u) + seq!['\''] + rest;
        let s = quote_pieces(t) + seq!['\''] + rest;
        assert(s =~= quote_piece(c) + tail);
        if c == '\'' {
            assert(s[0] == '\'');
            let s1 = s.drop_first();
            assert(s1 =~= seq!['\\', '\'', '\''] + tail);
            assert(s1[0] == '\\');
            assert(s1[1] == '\'');
            assert(s1.skip(2) =~= seq!['\''] + tail);
            assert((seq!['\''] + tail)[0] == '\'');
            assert((seq!['\''] + tail).drop_first() =~= tail);
            assert(in_quotes(s) == shell_word(s1));
            assert(shell_word(s1) == prepend('\'', shell_word(s1.skip(2))));
            assert(shell_word(seq!['\''] + tail) == in_quotes(tail));
            assert(in_quotes(s) == prepend(c, in_quotes(tail)));
            match shell_word(rest) {
                Some(y) => assert(seq![c] + (u + y) =~= t + y),
                None => {},
            }
        } else {
            assert(s[0] == c);
            assert(s.drop_first() =~= tail);
            assert(in_quotes(s) == prepend(c, in_quotes(tail)));
            match shell_word(rest) {
                Some(y) => assert(seq![c] + (u + y) =~= t + y),
                None => {},
            }
        }
    }
}

proof fn lemma_safe_word(v: Seq<char>)
    requires
        forall|i: int| 0 <= i < v.len() ==> is_shell_safe(#[trigger] v[i]),
    ensures
        shell_word(v) == Some(v),
    decreases v.len(),
{
    if v.len() > 0 {
        assert(v[0] != '\'' && v[0] != '\\') by {
            assert(is_shell_safe(v[0]));
        }
        let u = v.drop_first();
        assert forall|i: int| 0 <= i < u.len() implies is_shell_safe(#[trigger] u[i]) by {
            assert(u[i] == v[i + 1]);
        }
        lemma_safe_word(u);
        assert(seq![v[0]] + u =~= v);
    }
}

/// What `shell_escape` produces is read back by a POSIX shell as one word,
/// equal to the value that was quoted.
pub proof fn lemma_shell_escape_round_trip(v: Seq<char>)
    ensures
        shell_word(shell_escaped(v)) == Some(v),
{
    if v.len() == 0 {
        let q = seq!['\'', '\''];
        assert(q.drop_first() =~= seq!['\'']);
        assert(seq!['\''].drop_first() =~= Seq::<char>::empty());
        assert(v =~= Seq::<char>::empty());
    } else if forall|i: int| 0 <= i < v.len() ==> is_shell_safe(#[trigger] v[i]) {
        lemma_safe_word(v);
    } else {
        let q = seq!['\''] + quote_pieces(v) + seq!['\''];
        lemma_quoted_pieces(v, Seq::empty());
        assert(q[0] == '\'');
        assert(q.drop_first() =~= quote_pieces(v) + seq!['\''] + Seq::<char>::empty());
        assert(v + Seq::<char>::empty() =~= v);
    }
}

// ---------------------------------------------------------------------------
// Quoting and expansion
// ---------------------------------------------------------------------------

fn shell_safe(c: char) -> (r: bool)
    ensures
        r == is_shell_safe(c),
{
    ('a' <= c && c <= 'z') || ('A' <= c && c <= 'Z') || ('0' <= c && c <= '9') || c == '_' || c
        == '-' || c == '.' || c == '/' || c == ':' || c == '='
}

/// Quotes `value` for safe interpolation into a remote shell command.
pub fn shell_escape(value: &str) -> (r: String)
    ensures
        r@ == shell_escaped(value@),
{
    let v = chars_of(value);
    if v.len() == 0 {
        let mut q: Vec<char> = Vec::new();
        q.push('\'');
        q.push('\'');
        assert(q@ =~= seq!['\'', '\'']);
        return string_of(&q);
    }
    let mut safe = true;
    let mut i: usize = 0;
    while i < v.len()
        invariant
            i <= v.len(),
            v@ == value@,
            safe == forall|j: int| 0 <= j < i ==> is_shell_safe(#[trigger] v@[j]),
        decreases v.len() - i,
    {
        if !shell_safe(v[i]) {
            safe = false;
        }
        i += 1;
    }
    if safe {
        return value.to_owned();
    }
    let mut out: Vec<char> = Vec::new();
    out.push('\'');
    let mut k: usize = 0;
    while k < v.len()
        invariant
            k <= v.len(),
            v@ == value@,
            out@ == seq!['\''] + v@.take(k as int).flat_map(|c: char| quote_piece(c)),
        decreases v.len() - k,
    {
        let ghost before = out@;
        if v[k] == '\'' {
            out.push('\'');
            out.push('\\');
            out.push('\'');
            out.push('\'');
        } else {
            out.push(v[k]);
        }
        proof {
            v@.lemma_flat_map_take_append(|c: char| quote_piece(c), k as int);
            assert(out@ =~= before + quote_piece(v@[k as int]));
        }
        k += 1;
    }
    assert(v@.take(v.len() as int) =~= v@);
    out.push('\'');
    string_of(&out)
}

/// Expands a leading `~/` of `path` to the home directory, when one is known.
pub fn expand_tilde(path: &str, home: Option<&str>) -> (r: String)
    ensures
        r@ == tilde_expanded(
            path@,
            match home {
                Some(h) => Some(h@),
                None => None,
            },
        ),
{
    let v = chars_of(path);
    match home {
        Some(h) => {
            if v.len() >= 2 && v[0] == '~' && v[1] == '/' {
                let mut out = chars_of(h);
                out.push('/');
                let mut i: usize = 2;
                while i < v.len()
                    invariant
                        2 <= i <= v.len(),
                        v@ == path@,
                        out@ == h@ + seq!['/'] + v@.subrange(2, i as int),
                    decreases v.len() - i,
                {
                    out.push(v[i]);
                    i += 1;
                    assert(v@.subrange(2, i as int) == v@.subrange(2, i - 1).push(v@[i - 1]));
                }
                assert(v@.subrange(2, v.len() as int) =~= v@.skip(2));
                string_of(&out)
            } else {
                path.to_owned()
            }
        },
        None => path.to_owned(),
    }
}

// ---------------------------------------------------------------------------
// Sorting the environment
// ---------------------------------------------------------------------------

/// The character views of a sequence of character-vector pairs.
pub open spec fn chars_pair_views(v: Seq<(Vec<char>, Vec<char>)>) -> Seq<(Seq<char>, Seq<char>)> {
    v.map_values(|p: (Vec<char>, Vec<char>)| (p.0@, p.1@))
}

fn pair_le_exec(p: &(Vec<char>, Vec<char>), q: &(Vec<char>, Vec<char>)) -> (r: bool)
    ensures
        r == pair_le((p.0@, p.1@), (q.0@, q.1@)),
{
    let kl = chars_le(&p.0, &q.0);
    let kg = chars_le(&q.0, &p.0);
    if kl && kg {
        proof {
            lemma_seq_le_antisymmetric(p.0@, q.0@);
        }
        chars_le(&p.1, &q.1)
    } else {
        proof {
            if p.0@ == q.0@ {
                lemma_seq_le_reflexive(p.0@);
            }
        }
        kl
    }
}

/// The environment assignments in the order of `env_order`. The names come
/// from a map and so are distinct; the contract holds for any list, a
/// repeated name then ordering by value.
pub fn sort_env(env: &[(String, String)]) -> (r: Vec<(String, String)>)
    ensures
        pair_views(r@) == pair_views(env@).sort_by(env_order()),
{
    let ghost order = env_order();
    proof {
        lemma_env_order_total();
    }
    let mut sorted: Vec<(Vec<char>, Vec<char>)> = Vec::new();
    let mut i: usize = 0;
    assert(chars_pair_views(sorted@) =~= pair_views(env@.take(0)));
    while i < env.len()
        invariant
            i <= env.len(),
            order == env_order(),
            total_ordering(order),
            sorted_by(chars_pair_views(sorted@), order),
            chars_pair_views(sorted@).to_multiset() == pair_views(env@.take(i as int)).to_multiset(),
        decreases env.len() - i,
    {
        let x = (chars_of(env[i].0.as_str()), chars_of(env[i].1.as_str()));
        let ghost xv = (x.0@, x.1@);
        let ghost old_sv = chars_pair_views(sorted@);
        let mut p: usize = 0;
        while p < sorted.len() && pair_le_exec(&sorted[p], &x)
            invariant
                p <= sorted.len(),
                old_sv == chars_pair_views(sorted@),
                xv == (x.0@, x.1@),
                order == env_order(),
                forall|j: int| 0 <= j < p ==> #[trigger] order(old_sv[j], xv),
            decreases sorted.len() - p,
        {
            p += 1;
        }
        sorted.insert(p, x);
        proof {
            let sv = chars_pair_views(sorted@);
            assert(sv =~= old_sv.insert(p as int, xv));
            assert forall|a: int, b: int| 0 <= a < b < sv.len() implies #[trigger] order(
                sv[a],
                sv[b],
            ) by {
                if b < p {
                    assert(order(old_sv[a], old_sv[b]));
                } else if b == p {
                    assert(order(old_sv[a], xv));
                } else if a < p {
                    assert(order(old_sv[a], old_sv[b - 1]));
                } else if a == p {
                    assert(!order(old_sv[p as int], xv));
                    assert(order(xv, old_sv[p as int]));
                    if b - 1 > p {
                        assert(order(old_sv[p as int], old_sv[b - 1]));
                    }
                } else {
                    assert(order(old_sv[a - 1], old_sv[b - 1]));
                }
            }
            vstd::seq_lib::to_multiset_insert(old_sv, p as int, xv);
            assert(env@.take(i + 1) == env@.take(i as int).push(env@[i as int]));
            assert(pair_views(env@.take(i + 1)) =~= pair_views(env@.take(i as int)).push(xv));
            vstd::seq_lib::to_multiset_build(pair_views(env@.take(i as int)), xv);
        }
        i += 1;
    }
    let mut r: Vec<(String, String)> = Vec::new();
    let mut k: usize = 0;
    while k < sorted.len()
        invariant
            k <= sorted.len(),
            pair_views(r@) == chars_pair_views(sorted@).take(k as int),
        decreases sorted.len() - k,
    {
        let ghost before = pair_views(r@);
        let a = string_of(&sorted[k].0);
        let b = string_of(&sorted[k].1);
        r.push((a, b));
        assert(pair_views(r@) =~= before.push((sorted@[k as int].0@, sorted@[k as int].1@)));
        k += 1;
        assert(pair_views(r@) =~= chars_pair_views(sorted@).take(k as int));
    }
    proof {
        assert(chars_pair_views(sorted@).take(sorted.len() as int) =~= chars_pair_views(sorted@));
        assert(env@.take(env.len() as int) =~= env@);
        let e = pair_views(env@);
        e.lemma_sort_by_ensures(order);
        vstd::seq_lib::lemma_sorted_unique(pair_views(r@), e.sort_by(order), order);
    }
    r
}

} // verus!
