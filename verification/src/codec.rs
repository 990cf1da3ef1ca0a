use vstd::prelude::*;

use crate::command::assoc_keys_unique;
use crate::command::env_lookup;
use crate::command::lemma_assoc_lookup_none;
use crate::command::Command;
use crate::command::CommandModel;
use crate::stdio::Stdio;

verus! {

/// One element of a spec's flat serialized form. The data model fixes
/// only this field shape; turning tokens into bytes is left to the
/// embedding.
#[derive(Clone, Debug, PartialEq, Eq)]
pub enum Token {
    /// A string field or list element.
    Text(String),
    /// A boolean field.
    Flag(bool),
    /// A stream disposition.
    Disp(Stdio),
    /// An optional field that is absent, or an absent-valued
    /// environment entry.
    Absent,
    /// Terminates a list.
    End,
}

/// Mathematical model of a token.
pub enum TokenModel {
    /// A string field or list element.
    Text(Seq<char>),
    /// A boolean field.
    Flag(bool),
    /// A stream disposition.
    Disp(Stdio),
    /// An absent optional field or entry value.
    Absent,
    /// Terminates a list.
    End,
}

impl View for Token {
    type V = TokenModel;

    open spec fn view(&self) -> TokenModel {
        match self {
            Token::Text(s) => TokenModel::Text(s@),
            Token::Flag(b) => TokenModel::Flag(*b),
            Token::Disp(d) => TokenModel::Disp(*d),
            Token::Absent => TokenModel::Absent,
            Token::End => TokenModel::End,
        }
    }
}

impl DeepView for Token {
    type V = TokenModel;

    open spec fn deep_view(&self) -> TokenModel {
        self.view()
    }
}

/// The strings of `items`, each as a text token, in order.
pub open spec fn enc_texts(items: Seq<Seq<char>>) -> Seq<TokenModel>
    decreases items.len(),
{
    if items.len() == 0 {
        Seq::empty()
    } else {
        seq![TokenModel::Text(items.first())] + enc_texts(items.drop_first())
    }
}

/// An environment entry as two tokens: its key, then its value or an
/// absence mark.
pub open spec fn enc_entry(e: (Seq<char>, Option<Seq<char>>)) -> Seq<TokenModel> {
    match e.1 {
        Some(v) => seq![TokenModel::Text(e.0), TokenModel::Text(v)],
        None => seq![TokenModel::Text(e.0), TokenModel::Absent],
    }
}

/// The environment entries of `entries`, two tokens each, in order.
pub open spec fn enc_env(entries: Seq<(Seq<char>, Option<Seq<char>>)>) -> Seq<TokenModel>
    decreases entries.len(),
{
    if entries.len() == 0 {
        Seq::empty()
    } else {
        enc_entry(entries.first()) + enc_env(entries.drop_first())
    }
}

/// An optional string as one token.
pub open spec fn opt_text_token(o: Option<Seq<char>>) -> TokenModel {
    match o {
        Some(t) => TokenModel::Text(t),
        None => TokenModel::Absent,
    }
}

/// An optional disposition as one token.
pub open spec fn opt_disp_token(o: Option<Stdio>) -> TokenModel {
    match o {
        Some(d) => TokenModel::Disp(d),
        None => TokenModel::Absent,
    }
}

/// The serialized form of a spec: its name, its arguments terminated
/// by an end mark, its inheritance flag, its environment entries
/// terminated by an end mark, then the working directory and the three
/// stream dispositions.
pub open spec fn spec_encode(m: CommandModel) -> Seq<TokenModel> {
    seq![TokenModel::Text(m.name)] + enc_texts(m.arguments) + seq![TokenModel::End]
        + seq![TokenModel::Flag(m.inherit_environment)] + enc_env(m.environment)
        + seq![TokenModel::End] + seq![
        opt_text_token(m.current_dir),
        opt_disp_token(m.stdin),
        opt_disp_token(m.stdout),
        opt_disp_token(m.stderr),
    ]
}

/// Reads text tokens up to an end mark; yields the strings and the
/// remaining tokens.
pub open spec fn dec_texts(s: Seq<TokenModel>) -> Option<(Seq<Seq<char>>, Seq<TokenModel>)>
    decreases s.len(),
{
    if s.len() == 0 {
        None
    } else {
        match s.first() {
            TokenModel::End => Some((Seq::empty(), s.drop_first())),
            TokenModel::Text(t) => match dec_texts(s.drop_first()) {
                Some(p) => Some((seq![t] + p.0, p.1)),
                None => None,
            },
            _ => None,
        }
    }
}

/// Reads two-token environment entries up to an end mark, refusing a
/// repeated key; yields the entries and the remaining tokens.
pub open spec fn dec_env(s: Seq<TokenModel>) -> Option<
    (Seq<(Seq<char>, Option<Seq<char>>)>, Seq<TokenModel>),
>
    decreases s.len(),
{
    if s.len() == 0 {
        None
    } else {
        match s.first() {
            TokenModel::End => Some((Seq::empty(), s.drop_first())),
            TokenModel::Text(k) => {
                let s1 = s.drop_first();
                if s1.len() == 0 {
                    None
                } else {
                    match s1.first() {
                        TokenModel::Text(v) => match dec_env(s1.drop_first()) {
                            Some(p) => if env_lookup(p.0, k) is Some {
                                None
                            } else {
                                Some((seq![(k, Some(v))] + p.0, p.1))
                            },
                            None => None,
                        },
                        TokenModel::Absent => match dec_env(s1.drop_first()) {
                            Some(p) => if env_lookup(p.0, k) is Some {
                                None
                            } else {
                                Some((seq![(k, None)] + p.0, p.1))
                            },
                            None => None,
                        },
                        _ => None,
                    }
                }
            },
            _ => None,
        }
    }
}

/// Reads one optional-string token.
pub open spec fn dec_opt_text(s: Seq<TokenModel>) -> Option<(Option<Seq<char>>, Seq<TokenModel>)> {
    if s.len() == 0 {
        None
    } else {
        match s.first() {
            TokenModel::Text(t) => Some((Some(t), s.drop_first())),
            TokenModel::Absent => Some((None, s.drop_first())),
            _ => None,
        }
    }
}

/// Reads one optional-disposition token.
pub open spec fn dec_opt_disp(s: Seq<TokenModel>) -> Option<(Option<Stdio>, Seq<TokenModel>)> {
    if s.len() == 0 {
        None
    } else {
        match s.first() {
            TokenModel::Disp(d) => Some((Some(d), s.drop_first())),
            TokenModel::Absent => Some((None, s.drop_first())),
            _ => None,
        }
    }
}

/// Parses a whole serialized spec; succeeds exactly on the token
/// sequences [`spec_encode`] produces from valid models, consuming all
/// tokens.
pub open spec fn spec_decode(s: Seq<TokenModel>) -> Option<CommandModel> {
    if s.len() == 0 {
        None
    } else {
        match s.first() {
            TokenModel::Text(name) => match dec_texts(s.drop_first()) {
                Some(p1) => {
                    let s2 = p1.1;
                    if s2.len() == 0 {
                        None
                    } else {
                        match s2.first() {
                            TokenModel::Flag(inh) => match dec_env(s2.drop_first()) {
                                Some(p2) => match dec_opt_text(p2.1) {
                                    Some(p3) => match dec_opt_disp(p3.1) {
                                        Some(p4) => match dec_opt_disp(p4.1) {
                                            Some(p5) => match dec_opt_disp(p5.1) {
                                                Some(p6) => if p6.1.len() == 0 {
                                                    Some(
                                                        CommandModel {
                                                            name,
                                                            arguments: p1.0,
                                                            inherit_environment: inh,
                                                            environment: p2.0,
                                                            current_dir: p3.0,
                                                            stdin: p4.0,
                                                            stdout: p5.0,
                                                            stderr: p6.0,
                                                        },
                                                    )
                                                } else {
                                                    None
                                                },
                                                None => None,
                                            },
                                            None => None,
                                        },
                                        None => None,
                                    },
                                    None => None,
                                },
                                None => None,
                            },
                            _ => None,
                        }
                    }
                },
                None => None,
            },
            _ => None,
        }
    }
}

/// Appending a string extends its text-token encoding at the end.
proof fn lemma_enc_texts_snoc(items: Seq<Seq<char>>, x: Seq<char>)
    ensures
        enc_texts(items.push(x)) == enc_texts(items).push(TokenModel::Text(x)),
    decreases items.len(),
{
    let grown = items.push(x);
    if items.len() == 0 {
        assert(grown.first() == x);
        assert(grown.drop_first() =~= Seq::<Seq<char>>::empty());
        assert(enc_texts(Seq::<Seq<char>>::empty()) == Seq::<TokenModel>::empty());
        assert(enc_texts(grown) == seq![TokenModel::Text(x)] + Seq::<TokenModel>::empty());
        assert(enc_texts(grown) =~= enc_texts(items).push(TokenModel::Text(x)));
    } else {
        assert(grown.first() == items.first());
        assert(grown.drop_first() =~= items.drop_first().push(x));
        lemma_enc_texts_snoc(items.drop_first(), x);
        assert(enc_texts(grown) == seq![TokenModel::Text(items.first())] + enc_texts(
            items.drop_first(),
        ).push(TokenModel::Text(x)));
        assert(enc_texts(items) == seq![TokenModel::Text(items.first())] + enc_texts(
            items.drop_first(),
        ));
        assert(enc_texts(grown) =~= enc_texts(items).push(TokenModel::Text(x)));
    }
}

/// Appending an entry extends its environment encoding at the end.
proof fn lemma_enc_env_snoc(
    entries: Seq<(Seq<char>, Option<Seq<char>>)>,
    e: (Seq<char>, Option<Seq<char>>),
)
    ensures
        enc_env(entries.push(e)) == enc_env(entries) + enc_entry(e),
    decreases entries.len(),
{
    let grown = entries.push(e);
    if entries.len() == 0 {
        assert(grown.first() == e);
        assert(grown.drop_first() =~= Seq::<(Seq<char>, Option<Seq<char>>)>::empty());
        assert(enc_env(Seq::<(Seq<char>, Option<Seq<char>>)>::empty()) == Seq::<TokenModel>::empty());
        assert(enc_env(grown) == enc_entry(e) + Seq::<TokenModel>::empty());
        assert(enc_env(grown) =~= enc_env(entries) + enc_entry(e));
    } else {
        assert(grown.first() == entries.first());
        assert(grown.drop_first() =~= entries.drop_first().push(e));
        lemma_enc_env_snoc(entries.drop_first(), e);
        assert(enc_env(grown) == enc_entry(entries.first()) + (enc_env(entries.drop_first())
            + enc_entry(e)));
        assert(enc_env(entries) == enc_entry(entries.first()) + enc_env(entries.drop_first()));
        assert(enc_env(grown) =~= enc_env(entries) + enc_entry(e));
    }
}

/// Text tokens followed by an end mark decode to exactly the encoded
/// strings, leaving the rest untouched.
proof fn lemma_dec_texts_round(items: Seq<Seq<char>>, rest: Seq<TokenModel>)
    ensures
        dec_texts(enc_texts(items) + seq![TokenModel::End] + rest) == Some((items, rest)),
    decreases items.len(),
{
    let s = enc_texts(items) + seq![TokenModel::End] + rest;
    if items.len() == 0 {
        assert(enc_texts(items) =~= Seq::<TokenModel>::empty());
        assert(s.first() == TokenModel::End);
        assert(s.drop_first() =~= rest);
        assert(dec_texts(s) == Some((Seq::<Seq<char>>::empty(), rest)));
        assert(items =~= Seq::<Seq<char>>::empty());
    } else {
        lemma_dec_texts_round(items.drop_first(), rest);
        assert(s.first() == TokenModel::Text(items.first()));
        assert(s.drop_first() =~= enc_texts(items.drop_first()) + seq![TokenModel::End] + rest);
        assert(seq![items.first()] + items.drop_first() =~= items);
    }
}

/// Environment entries with distinct keys, followed by an end mark,
/// decode to exactly the encoded entries.
proof fn lemma_dec_env_round(entries: Seq<(Seq<char>, Option<Seq<char>>)>, rest: Seq<TokenModel>)
    requires
        assoc_keys_unique(entries),
    ensures
        dec_env(enc_env(entries) + seq![TokenModel::End] + rest) == Some((entries, rest)),
    decreases entries.len(),
{
    let s = enc_env(entries) + seq![TokenModel::End] + rest;
    if entries.len() == 0 {
        assert(enc_env(entries) =~= Seq::<TokenModel>::empty());
        assert(s.first() == TokenModel::End);
        assert(s.drop_first() =~= rest);
        assert(entries =~= Seq::<(Seq<char>, Option<Seq<char>>)>::empty());
    } else {
        let e = entries.first();
        let tail = entries.drop_first();
        assert(forall|i: int| 0 <= i < tail.len() ==> tail[i] == entries[i + 1]);
        assert(assoc_keys_unique(tail));
        lemma_dec_env_round(tail, rest);
        assert(s.first() == TokenModel::Text(e.0));
        let s1 = s.drop_first();
        assert(s1.len() > 0);
        let s_tail = enc_env(tail) + seq![TokenModel::End] + rest;
        match e.1 {
            Some(v) => {
                assert(enc_entry(e) == seq![TokenModel::Text(e.0), TokenModel::Text(v)]);
                assert(s1.first() == TokenModel::Text(v));
                assert(s1.drop_first() =~= s_tail);
            },
            None => {
                assert(enc_entry(e) == seq![TokenModel::Text(e.0), TokenModel::Absent]);
                assert(s1.first() == TokenModel::Absent);
                assert(s1.drop_first() =~= s_tail);
            },
        }
        lemma_assoc_lookup_none(tail, e.0);
        assert(forall|i: int| 0 <= i < tail.len() ==> tail[i].0 != e.0);
        assert(env_lookup(tail, e.0) is None);
        assert(seq![e] + tail =~= entries);
    }
}

/// Decoded environment entries have pairwise distinct keys.
proof fn lemma_dec_env_unique(s: Seq<TokenModel>)
    ensures
        dec_env(s) matches Some(p) ==> assoc_keys_unique(p.0),
    decreases s.len(),
{
    if s.len() > 0 {
        match s.first() {
            TokenModel::Text(k) => {
                let s1 = s.drop_first();
                if s1.len() > 0 {
                    lemma_dec_env_unique(s1.drop_first());
                    if dec_env(s) is Some {
                        let p = dec_env(s).unwrap();
                        let inner = dec_env(s1.drop_first()).unwrap();
                        lemma_assoc_lookup_none(inner.0, k);
                        assert(forall|i: int| 0 <= i < inner.0.len() ==> p.0[i + 1] == inner.0[i]);
                    }
                }
            },
            _ => {},
        }
    }
}

/// Round trip: decoding the encoding of any valid model yields exactly
/// that model.
pub proof fn lemma_codec_round_trip(m: CommandModel)
    requires
        m.wf(),
    ensures
        spec_decode(spec_encode(m)) == Some(m),
{
    let s = spec_encode(m);
    let tail4 = seq![
        opt_text_token(m.current_dir),
        opt_disp_token(m.stdin),
        opt_disp_token(m.stdout),
        opt_disp_token(m.stderr),
    ];
    let rest1 = seq![TokenModel::Flag(m.inherit_environment)] + enc_env(m.environment)
        + seq![TokenModel::End] + tail4;
    assert(s.first() == TokenModel::Text(m.name));
    assert(s.drop_first() =~= enc_texts(m.arguments) + seq![TokenModel::End] + rest1);
    lemma_dec_texts_round(m.arguments, rest1);
    assert(rest1.first() == TokenModel::Flag(m.inherit_environment));
    let rest2 = enc_env(m.environment) + seq![TokenModel::End] + tail4;
    assert(rest1.drop_first() =~= rest2);
    lemma_dec_env_round(m.environment, tail4);
    assert(dec_env(rest2) == Some((m.environment, tail4)));
    assert(tail4.first() == opt_text_token(m.current_dir));
    let tail3 = tail4.drop_first();
    assert(dec_opt_text(tail4) == Some((m.current_dir, tail3)));
    assert(tail3.first() == opt_disp_token(m.stdin));
    let tail2 = tail3.drop_first();
    assert(dec_opt_disp(tail3) == Some((m.stdin, tail2)));
    assert(tail2.first() == opt_disp_token(m.stdout));
    let tail1 = tail2.drop_first();
    assert(dec_opt_disp(tail2) == Some((m.stdout, tail1)));
    assert(tail1.first() == opt_disp_token(m.stderr));
    assert(dec_opt_disp(tail1) == Some((m.stderr, tail1.drop_first())));
    assert(tail1.drop_first().len() == 0);
}

impl Command {
    /// Encodes the spec as a flat token sequence that [`Command::decode`]
    /// reverses exactly.
    pub fn encode(&self) -> (r: Vec<Token>)
        ensures
            r.deep_view() == spec_encode(self@),
    {
        let mut out: Vec<Token> = Vec::new();
        out.push(Token::Text(self.get_name().clone()));
        let ghost part1 = seq![TokenModel::Text(self@.name)];
        proof {
            assert(out.deep_view() =~= part1);
        }
        let args = self.get_arguments();
        let ghost adv = args.deep_view();
        let mut i: usize = 0;
        while i < args.len()
            invariant
                i <= args.len(),
                adv == args.deep_view(),
                adv.len() == args.len(),
                part1 == seq![TokenModel::Text(self@.name)],
                out.deep_view() == part1 + enc_texts(adv.take(i as int)),
            decreases args.len() - i,
        {
            let ghost old_dv = out.deep_view();
            out.push(Token::Text(args[i].clone()));
            proof {
                assert(adv[i as int] == args@[i as int]@);
                assert(out.deep_view() =~= old_dv.push(TokenModel::Text(adv[i as int])));
                assert(adv.take(i + 1) =~= adv.take(i as int).push(adv[i as int]));
                lemma_enc_texts_snoc(adv.take(i as int), adv[i as int]);
                assert(out.deep_view() =~= part1 + enc_texts(adv.take(i + 1)));
            }
            i += 1;
        }
        let ghost old_dv = out.deep_view();
        out.push(Token::End);
        let ghost part2 = part1 + enc_texts(adv) + seq![TokenModel::End];
        proof {
            assert(adv.take(args.len() as int) =~= adv);
            assert(out.deep_view() =~= old_dv.push(TokenModel::End));
            assert(out.deep_view() =~= part2);
        }
        out.push(Token::Flag(self.inherits_environment()));
        let ghost part3 = part2 + seq![TokenModel::Flag(self@.inherit_environment)];
        proof {
            assert(out.deep_view() =~= part3);
        }
        let env = self.get_environment();
        let ghost edv = env.deep_view();
        let mut j: usize = 0;
        while j < env.len()
            invariant
                j <= env.len(),
                edv == env.deep_view(),
                edv.len() == env.len(),
                part3 == seq![TokenModel::Text(self@.name)] + enc_texts(self@.arguments) + seq![
                    TokenModel::End,
                ] + seq![TokenModel::Flag(self@.inherit_environment)],
                out.deep_view() == part3 + enc_env(edv.take(j as int)),
            decreases env.len() - j,
        {
            let ghost old_dv = out.deep_view();
            proof {
                assert(edv[j as int] == (env@[j as int].0@, env@[j as int].1.deep_view()));
            }
            out.push(Token::Text(env[j].0.clone()));
            match &env[j].1 {
                Some(v) => {
                    out.push(Token::Text(v.clone()));
                },
                None => {
                    out.push(Token::Absent);
                },
            }
            proof {
                assert(out.deep_view() =~= old_dv + enc_entry(edv[j as int]));
                assert(edv.take(j + 1) =~= edv.take(j as int).push(edv[j as int]));
                lemma_enc_env_snoc(edv.take(j as int), edv[j as int]);
                assert(out.deep_view() =~= part3 + enc_env(edv.take(j + 1)));
            }
            j += 1;
        }
        out.push(Token::End);
        let ghost part4 = part3 + enc_env(edv) + seq![TokenModel::End];
        proof {
            assert(edv.take(env.len() as int) =~= edv);
            assert(out.deep_view() =~= part4);
        }
        match self.get_current_dir() {
            Some(d) => {
                out.push(Token::Text(d.clone()));
            },
            None => {
                out.push(Token::Absent);
            },
        }
        proof {
            assert(out.deep_view() =~= part4 + seq![opt_text_token(self@.current_dir)]);
        }
        let ghost old_dv = out.deep_view();
        match self.get_stdin() {
            Some(d) => {
                out.push(Token::Disp(d));
            },
            None => {
                out.push(Token::Absent);
            },
        }
        match self.get_stdout() {
            Some(d) => {
                out.push(Token::Disp(d));
            },
            None => {
                out.push(Token::Absent);
            },
        }
        match self.get_stderr() {
            Some(d) => {
                out.push(Token::Disp(d));
            },
            None => {
                out.push(Token::Absent);
            },
        }
        proof {
            assert(out.deep_view() =~= old_dv + seq![
                opt_disp_token(self@.stdin),
                opt_disp_token(self@.stdout),
                opt_disp_token(self@.stderr),
            ]);
            assert(out.deep_view() =~= spec_encode(self@));
        }
        out
    }

    /// Decodes a token sequence produced by [`Command::encode`];
    /// returns the spec it denotes, or nothing when the sequence is
    /// not such an encoding (in particular when an environment key
    /// repeats or tokens trail the encoded spec).
    pub fn decode(tokens: &Vec<Token>) -> (r: Option<Command>)
        ensures
            match r {
                Some(c) => c.wf() && spec_decode(tokens.deep_view()) == Some(c@),
                None => spec_decode(tokens.deep_view()) is None,
            },
    {
        let ghost tdv = tokens.deep_view();
        if tokens.len() == 0 {
            return None;
        }
        proof {
            assert(tdv.first() == tokens@[0]@);
            assert(tdv.drop_first() =~= tdv.skip(1));
        }
        let name = match &tokens[0] {
            Token::Text(s) => s.clone(),
            _ => {
                return None;
            },
        };
        let (args, p1) = match dec_texts_run(tokens, 1) {
            Some(x) => x,
            None => {
                return None;
            },
        };
        let ghost s2 = tdv.skip(p1 as int);
        if p1 >= tokens.len() {
            proof {
                assert(s2.len() == 0);
            }
            return None;
        }
        proof {
            assert(s2.first() == tdv[p1 as int]);
            assert(tdv[p1 as int] == tokens@[p1 as int]@);
            assert(s2.drop_first() =~= tdv.skip(p1 + 1));
        }
        let inh = match &tokens[p1] {
            Token::Flag(b) => *b,
            _ => {
                return None;
            },
        };
        let (env, p2) = match dec_env_run(tokens, p1 + 1) {
            Some(x) => x,
            None => {
                return None;
            },
        };
        proof {
            lemma_dec_env_unique(tdv.skip(p1 + 1));
        }
        let (dir, p3) = match dec_opt_text_run(tokens, p2) {
            Some(x) => x,
            None => {
                return None;
            },
        };
        let (din, p4) = match dec_opt_disp_run(tokens, p3) {
            Some(x) => x,
            None => {
                return None;
            },
        };
        let (dout, p5) = match dec_opt_disp_run(tokens, p4) {
            Some(x) => x,
            None => {
                return None;
            },
        };
        let (derr, p6) = match dec_opt_disp_run(tokens, p5) {
            Some(x) => x,
            None => {
                return None;
            },
        };
        if p6 != tokens.len() {
            proof {
                assert(tdv.skip(p6 as int).len() != 0);
            }
            return None;
        }
        proof {
            assert(tdv.skip(p6 as int).len() == 0);
        }
        Some(
            Command::from_parts(
                name,
                args,
                inh,
                env,
                dir,
                din,
                dout,
                derr,
            ),
        )
    }
}

/// Reads text tokens from `pos` up to an end mark.
fn dec_texts_run(tokens: &Vec<Token>, pos: usize) -> (r: Option<(Vec<String>, usize)>)
    requires
        pos <= tokens.len(),
    ensures
        match r {
            Some(p) => p.1 <= tokens.len() && dec_texts(tokens.deep_view().skip(pos as int))
                == Some((p.0.deep_view(), tokens.deep_view().skip(p.1 as int))),
            None => dec_texts(tokens.deep_view().skip(pos as int)) is None,
        },
    decreases tokens.len() - pos,
{
    let ghost tdv = tokens.deep_view();
    let ghost s = tdv.skip(pos as int);
    if pos >= tokens.len() {
        proof {
            assert(s.len() == 0);
        }
        return None;
    }
    proof {
        assert(s.first() == tdv[pos as int]);
        assert(tdv[pos as int] == tokens@[pos as int]@);
        assert(s.drop_first() =~= tdv.skip(pos + 1));
    }
    match &tokens[pos] {
        Token::End => {
            let items: Vec<String> = Vec::new();
            proof {
                assert(items.deep_view() =~= Seq::<Seq<char>>::empty());
            }
            Some((items, pos + 1))
        },
        Token::Text(t) => {
            match dec_texts_run(tokens, pos + 1) {
                Some((items, p2)) => {
                    let ghost inner = items.deep_view();
                    let mut items = items;
                    items.insert(0, t.clone());
                    proof {
                        assert(items.deep_view() =~= seq![t@] + inner);
                    }
                    Some((items, p2))
                },
                None => None,
            }
        },
        _ => None,
    }
}

/// Whether some entry of `v` carries `key`.
fn env_entries_have_key(v: &Vec<(String, Option<String>)>, key: &String) -> (r: bool)
    ensures
        r == (env_lookup(v.deep_view(), key@) is Some),
{
    let ghost dv = v.deep_view();
    let mut i: usize = 0;
    while i < v.len()
        invariant
            i <= v.len(),
            dv == v.deep_view(),
            dv.len() == v.len(),
            forall|j: int| 0 <= j < i ==> dv[j].0 != key@,
        decreases v.len() - i,
    {
        proof {
            assert(dv[i as int] == (v@[i as int].0@, v@[i as int].1.deep_view()));
            lemma_assoc_lookup_none(dv, key@);
        }
        if v[i].0 == *key {
            return true;
        }
        i += 1;
    }
    proof {
        lemma_assoc_lookup_none(dv, key@);
    }
    false
}

/// Reads two-token environment entries from `pos` up to an end mark,
/// refusing a repeated key.
fn dec_env_run(tokens: &Vec<Token>, pos: usize) -> (r: Option<
    (Vec<(String, Option<String>)>, usize),
>)
    requires
        pos <= tokens.len(),
    ensures
        match r {
            Some(p) => p.1 <= tokens.len() && dec_env(tokens.deep_view().skip(pos as int)) == Some(
                (p.0.deep_view(), tokens.deep_view().skip(p.1 as int)),
            ),
            None => dec_env(tokens.deep_view().skip(pos as int)) is None,
        },
    decreases tokens.len() - pos,
{
    let ghost tdv = tokens.deep_view();
    let ghost s = tdv.skip(pos as int);
    if pos >= tokens.len() {
        proof {
            assert(s.len() == 0);
        }
        return None;
    }
    proof {
        assert(s.first() == tdv[pos as int]);
        assert(tdv[pos as int] == tokens@[pos as int]@);
        assert(s.drop_first() =~= tdv.skip(pos + 1));
    }
    match &tokens[pos] {
        Token::End => {
            let entries: Vec<(String, Option<String>)> = Vec::new();
            proof {
                assert(entries.deep_view() =~= Seq::<(Seq<char>, Option<Seq<char>>)>::empty());
            }
            Some((entries, pos + 1))
        },
        Token::Text(k) => {
            let ghost s1 = tdv.skip(pos + 1);
            if pos + 1 >= tokens.len() {
                proof {
                    assert(s1.len() == 0);
                }
                return None;
            }
            proof {
                assert(s1.first() == tdv[pos + 1]);
                assert(tdv[pos + 1] == tokens@[pos + 1]@);
                assert(s1.drop_first() =~= tdv.skip(pos + 2));
            }
            let value: Option<String> = match &tokens[pos + 1] {
                Token::Text(v) => Some(v.clone()),
                Token::Absent => None,
                _ => {
                    return None;
                },
            };
            match dec_env_run(tokens, pos + 2) {
                Some((entries, p2)) => {
                    if env_entries_have_key(&entries, k) {
                        return None;
                    }
                    let ghost inner = entries.deep_view();
                    let mut entries = entries;
                    entries.insert(0, (k.clone(), value));
                    proof {
                        assert(entries.deep_view() =~= seq![(k@, value.deep_view())] + inner);
                    }
                    Some((entries, p2))
                },
                None => None,
            }
        },
        _ => None,
    }
}

/// Reads one optional-string token at `pos`.
fn dec_opt_text_run(tokens: &Vec<Token>, pos: usize) -> (r: Option<(Option<String>, usize)>)
    requires
        pos <= tokens.len(),
    ensures
        match r {
            Some(p) => p.1 <= tokens.len() && dec_opt_text(tokens.deep_view().skip(pos as int))
                == Some((p.0.deep_view(), tokens.deep_view().skip(p.1 as int))),
            None => dec_opt_text(tokens.deep_view().skip(pos as int)) is None,
        },
{
    let ghost tdv = tokens.deep_view();
    let ghost s = tdv.skip(pos as int);
    if pos >= tokens.len() {
        proof {
            assert(s.len() == 0);
        }
        return None;
    }
    proof {
        assert(s.first() == tdv[pos as int]);
        assert(tdv[pos as int] == tokens@[pos as int]@);
        assert(s.drop_first() =~= tdv.skip(pos + 1));
    }
    match &tokens[pos] {
        Token::Text(t) => Some((Some(t.clone()), pos + 1)),
        Token::Absent => Some((None, pos + 1)),
        _ => None,
    }
}

/// Reads one optional-disposition token at `pos`.
fn dec_opt_disp_run(tokens: &Vec<Token>, pos: usize) -> (r: Option<(Option<Stdio>, usize)>)
    requires
        pos <= tokens.len(),
    ensures
        match r {
            Some(p) => p.1 <= tokens.len() && dec_opt_disp(tokens.deep_view().skip(pos as int))
                == Some((p.0, tokens.deep_view().skip(p.1 as int))),
            None => dec_opt_disp(tokens.deep_view().skip(pos as int)) is None,
        },
{
    let ghost tdv = tokens.deep_view();
    let ghost s = tdv.skip(pos as int);
    if pos >= tokens.len() {
        proof {
            assert(s.len() == 0);
        }
        return None;
    }
    proof {
        assert(s.first() == tdv[pos as int]);
        assert(tdv[pos as int] == tokens@[pos as int]@);
        assert(s.drop_first() =~= tdv.skip(pos + 1));
    }
    match &tokens[pos] {
        Token::Disp(d) => Some((Some(*d), pos + 1)),
        Token::Absent => Some((None, pos + 1)),
        _ => None,
    }
}

} // verus!
