//! The protocol session core: the continuation registry, the rendering of
//! outgoing requests into their wire forms, and the pure decision logic of
//! the reader and writer threads.  The threads themselves, the socket and the
//! child process live outside the library; they drive this state machine.

use vstd::prelude::*;
use crate::models::{ChannelMethod, ContinuationCallback, ReturnStatus, SlynkAnswer, SlynkMessage};
use crate::text::chars_to_string;

verus! {

/// The sentinel substring that stops the child-process output pump.
pub const STOP_SIG: &'static str = "REPL~QUIT";

//
// Continuation registry.
//

/// The map held by a list of entries with pairwise distinct keys.
pub open spec fn map_of_entries(s: Seq<(usize, ContinuationCallback)>) -> Map<
    usize,
    ContinuationCallback,
>
    decreases s.len(),
{
    if s.len() == 0 {
        Map::empty()
    } else {
        map_of_entries(s.drop_last()).insert(s.last().0, s.last().1)
    }
}

/// A key is in the map exactly when some entry carries it.
proof fn lemma_map_of_entries_dom(s: Seq<(usize, ContinuationCallback)>, k: usize)
    ensures
        map_of_entries(s).dom().contains(k) <==> exists|i: int| 0 <= i < s.len() && s[i].0 == k,
    decreases s.len(),
{
    if s.len() > 0 {
        lemma_map_of_entries_dom(s.drop_last(), k);
        if s.last().0 == k {
            assert(s[s.len() - 1].0 == k);
        } else if map_of_entries(s).dom().contains(k) {
            let i = choose|i: int| 0 <= i < s.drop_last().len() && s.drop_last()[i].0 == k;
            assert(s[i].0 == k);
        } else {
            assert forall|i: int| 0 <= i < s.len() && s[i].0 == k implies false by {
                if i < s.len() - 1 {
                    assert(s.drop_last()[i].0 == k);
                }
            }
        }
    }
}

/// With pairwise distinct keys, the map sends each entry's key to its value.
proof fn lemma_map_of_entries_index(s: Seq<(usize, ContinuationCallback)>, i: int)
    requires
        forall|a: int, b: int| 0 <= a < b < s.len() ==> s[a].0 != s[b].0,
        0 <= i < s.len(),
    ensures
        map_of_entries(s).dom().contains(s[i].0),
        map_of_entries(s)[s[i].0] == s[i].1,
    decreases s.len(),
{
    if i == s.len() - 1 {
        assert(map_of_entries(s) == map_of_entries(s.drop_last()).insert(s.last().0, s.last().1));
    } else {
        assert(forall|a: int, b: int|
            0 <= a < b < s.drop_last().len() ==> s.drop_last()[a].0 != s.drop_last()[b].0);
        assert(s.drop_last()[i] == s[i]);
        lemma_map_of_entries_index(s.drop_last(), i);
        assert(s[i].0 != s.last().0);
    }
}

/// Issues monotonically increasing correlation ids and stores the pending
/// action registered for each id.  Ids are never reused and entries are never
/// evicted; the registry lives only as long as its session.
pub struct ContinuationRegistry {
    counter: usize,
    entries: Vec<(usize, ContinuationCallback)>,
    issued: Ghost<Seq<usize>>,
}

impl ContinuationRegistry {
    /// The value of the id counter: the last issued id, or zero.
    pub closed spec fn counter_spec(self) -> usize {
        self.counter
    }

    /// Every id this registry has issued, in issue order.
    pub closed spec fn issued_ids(self) -> Seq<usize> {
        self.issued@
    }

    /// The pending actions, keyed by continuation id.
    pub closed spec fn pending(self) -> Map<usize, ContinuationCallback> {
        map_of_entries(self.entries@)
    }

    /// Well-formed: issued ids are strictly increasing, positive, and at most
    /// the counter; entry keys are pairwise distinct, positive, and at most
    /// the counter.
    pub closed spec fn wf(self) -> bool {
        &&& forall|i: int, j: int|
            0 <= i < j < self.issued@.len() ==> self.issued@[i] < self.issued@[j]
        &&& forall|i: int|
            0 <= i < self.issued@.len() ==> 1 <= #[trigger] self.issued@[i] <= self.counter
        &&& forall|a: int, b: int|
            0 <= a < b < self.entries@.len() ==> self.entries@[a].0 != self.entries@[b].0
        &&& forall|i: int|
            0 <= i < self.entries@.len() ==> 1 <= (#[trigger] self.entries@[i]).0 <= self.counter
    }

    /// A fresh registry: no id issued, nothing pending; the first issued id
    /// will be 1.
    pub fn new() -> (r: Self)
        ensures
            r.wf(),
            r.counter_spec() == 0,
            r.issued_ids() == Seq::<usize>::empty(),
            r.pending() == Map::<usize, ContinuationCallback>::empty(),
    {
        ContinuationRegistry { counter: 0, entries: Vec::new(), issued: Ghost(Seq::empty()) }
    }

    /// The counter's current value: the last issued id, or zero.
    pub fn counter_value(&self) -> (r: usize)
        ensures
            r == self.counter_spec(),
    {
        self.counter
    }

    /// Issues the next id: one more than every id issued before, so ids are
    /// strictly increasing and never repeat.
    pub fn next_id(&mut self) -> (id: usize)
        requires
            old(self).wf(),
            old(self).counter_spec() < usize::MAX,
        ensures
            final(self).wf(),
            id == old(self).counter_spec() + 1,
            final(self).counter_spec() == id,
            final(self).issued_ids() == old(self).issued_ids().push(id),
            final(self).pending() == old(self).pending(),
            forall|i: int|
                0 <= i < old(self).issued_ids().len() ==> #[trigger] old(self).issued_ids()[i]
                    < id,
    {
        self.counter = self.counter + 1;
        let id = self.counter;
        proof {
            self.issued@ = self.issued@.push(id);
        }
        id
    }

    /// Stores the pending action for an id.  An id is registered at most
    /// once: overwriting would be a logic error, so a registered id is
    /// refused by contract.
    pub fn register(&mut self, id: usize, action: ContinuationCallback)
        requires
            old(self).wf(),
            1 <= id <= old(self).counter_spec(),
            !old(self).pending().dom().contains(id),
        ensures
            final(self).wf(),
            final(self).counter_spec() == old(self).counter_spec(),
            final(self).issued_ids() == old(self).issued_ids(),
            final(self).pending() == old(self).pending().insert(id, action),
    {
        proof {
            lemma_map_of_entries_dom(self.entries@, id);
        }
        let ghost before = self.entries@;
        self.entries.push((id, action));
        proof {
            assert(self.entries@.drop_last() =~= before);
        }
    }

    /// Looks the pending action for an id up, without removing it.
    pub fn lookup(&self, id: usize) -> (r: Option<&ContinuationCallback>)
        requires
            self.wf(),
        ensures
            match r {
                Some(action) => self.pending().dom().contains(id) && *action == self.pending()[id],
                None => !self.pending().dom().contains(id),
            },
    {
        let mut i: usize = 0;
        while i < self.entries.len()
            invariant
                self.wf(),
                i <= self.entries@.len(),
                forall|j: int| 0 <= j < i ==> (#[trigger] self.entries@[j]).0 != id,
            decreases self.entries@.len() - i,
        {
            if self.entries[i].0 == id {
                proof {
                    lemma_map_of_entries_index(self.entries@, i as int);
                }
                return Some(&self.entries[i].1);
            }
            i += 1;
        }
        proof {
            lemma_map_of_entries_dom(self.entries@, id);
        }
        None
    }
}

/// Every pending key was issued, so it is positive and at most the counter.
proof fn lemma_pending_keys_bounded(r: ContinuationRegistry)
    requires
        r.wf(),
    ensures
        forall|k: usize|
            #[trigger] r.pending().dom().contains(k) ==> 1 <= k <= r.counter_spec(),
{
    assert forall|k: usize| #[trigger]
        r.pending().dom().contains(k) implies 1 <= k <= r.counter_spec() by {
        lemma_map_of_entries_dom(r.entries@, k);
    }
}

/// Ids issued by one registry instance are strictly increasing, so no two
/// in-flight requests ever share an id.
pub proof fn lemma_issued_ids_strictly_increase(r: ContinuationRegistry)
    requires
        r.wf(),
    ensures
        forall|i: int, j: int|
            0 <= i < j < r.issued_ids().len() ==> r.issued_ids()[i] < r.issued_ids()[j],
        forall|i: int, j: int|
            0 <= i < r.issued_ids().len() && 0 <= j < r.issued_ids().len() && i != j
                ==> r.issued_ids()[i] != r.issued_ids()[j],
{
    assert forall|i: int, j: int|
        0 <= i < r.issued_ids().len() && 0 <= j < r.issued_ids().len() && i != j implies r
        .issued_ids()[i] != r.issued_ids()[j] by {
        if i < j {
            assert(r.issued_ids()[i] < r.issued_ids()[j]);
        } else {
            assert(r.issued_ids()[j] < r.issued_ids()[i]);
        }
    }
}

//
// Rendering outgoing requests.
//

/// The decimal digits of `n`, highest first.
pub open spec fn dec_digits_of(n: int) -> Seq<char>
    decreases n,
{
    if n < 10 {
        seq![crate::codec::hex_digit_char(if n < 0 {
            0
        } else {
            n
        })]
    } else {
        dec_digits_of(n / 10).push(crate::codec::hex_digit_char(n % 10))
    }
}

/// The decimal digits of `n`, highest first.
fn dec_digits(n: usize) -> (r: Vec<char>)
    ensures
        r@ == dec_digits_of(n as int),
    decreases n,
{
    if n < 10 {
        let mut v: Vec<char> = Vec::new();
        v.push(crate::codec::hex_digit((n % 16) as u32));
        proof {
            assert(v@ =~= dec_digits_of(n as int));
        }
        v
    } else {
        let mut v = dec_digits(n / 10);
        v.push(crate::codec::hex_digit((n % 10) as u32));
        v
    }
}

/// Renders `n` in decimal.
pub fn usize_to_dec(n: usize) -> (r: String)
    ensures
        r@ == dec_digits_of(n as int),
{
    let v = dec_digits(n);
    chars_to_string(&v)
}

/// The wire form of a reply to a server-initiated minibuffer read:
/// `(:emacs-return <thread> <tag> "<form without outer quotes>")`.
pub open spec fn emacs_return_spec(form: Seq<char>, thread: int, tag: int) -> Seq<char> {
    "(:emacs-return "@ + dec_digits_of(thread) + " "@ + dec_digits_of(tag) + " \""@
        + crate::text::trim_quotes_spec(form) + "\")\n"@
}

/// Renders a reply to a server-initiated minibuffer read.
pub fn emacs_return(form: &str, thread: usize, tag: usize) -> (r: String)
    ensures
        r@ == emacs_return_spec(form@, thread as int, tag as int),
{
    let mut s = String::new();
    s.append("(:emacs-return ");
    s.append(usize_to_dec(thread).as_str());
    s.append(" ");
    s.append(usize_to_dec(tag).as_str());
    s.append(" \"");
    s.append(crate::text::trim_quotes(form.to_owned()).as_str());
    s.append("\")\n");
    proof {
        assert(Seq::<char>::empty() + "(:emacs-return "@ =~= "(:emacs-return "@);
    }
    s
}

/// The wire form of a request evaluated on the server's control thread:
/// `(:emacs-rex <form> "<package>" t <continuation>))`.
pub open spec fn emacs_rex_spec(form: Seq<char>, package: Seq<char>, cont: int) -> Seq<char> {
    "(:emacs-rex "@ + form + " \""@ + package + "\" t "@ + dec_digits_of(cont) + "))\n"@
}

/// Renders a request with its continuation, run on the server's control
/// thread.
pub fn emacs_rex(form: &str, package: &str, continuation: usize) -> (r: String)
    ensures
        r@ == emacs_rex_spec(form@, package@, continuation as int),
{
    let mut s = String::new();
    s.append("(:emacs-rex ");
    s.append(form);
    s.append(" \"");
    s.append(package);
    s.append("\" t ");
    s.append(usize_to_dec(continuation).as_str());
    s.append("))\n");
    proof {
        assert(Seq::<char>::empty() + "(:emacs-rex "@ =~= "(:emacs-rex "@);
    }
    s
}

/// The wire form of a request addressed to one server thread:
/// `(:emacs-rex <form> "<package>" <thread> <continuation>))`.
pub open spec fn emacs_rex_thread_spec(
    form: Seq<char>,
    package: Seq<char>,
    thread: int,
    cont: int,
) -> Seq<char> {
    "(:emacs-rex "@ + form + " \""@ + package + "\" "@ + dec_digits_of(thread) + " "@
        + dec_digits_of(cont) + "))\n"@
}

/// Renders a request with its continuation, addressed to one server thread.
pub fn emacs_rex_thread(form: &str, package: &str, thread: usize, continuation: usize) -> (r:
    String)
    ensures
        r@ == emacs_rex_thread_spec(form@, package@, thread as int, continuation as int),
{
    let mut s = String::new();
    s.append("(:emacs-rex ");
    s.append(form);
    s.append(" \"");
    s.append(package);
    s.append("\" ");
    s.append(usize_to_dec(thread).as_str());
    s.append(" ");
    s.append(usize_to_dec(continuation).as_str());
    s.append("))\n");
    proof {
        assert(Seq::<char>::empty() + "(:emacs-rex "@ =~= "(:emacs-rex "@);
    }
    s
}

/// The wire form of a channel message: `(:emacs-channel-send <channel> <form>)`.
pub open spec fn emacs_channel_send_spec(form: Seq<char>, channel: int) -> Seq<char> {
    "(:emacs-channel-send "@ + dec_digits_of(channel) + " "@ + form + ")\n"@
}

/// Renders a message for a server channel.
pub fn emacs_channel_send(form: &str, channel: usize) -> (r: String)
    ensures
        r@ == emacs_channel_send_spec(form@, channel as int),
{
    let mut s = String::new();
    s.append("(:emacs-channel-send ");
    s.append(usize_to_dec(channel).as_str());
    s.append(" ");
    s.append(form);
    s.append(")\n");
    proof {
        assert(Seq::<char>::empty() + "(:emacs-channel-send "@ =~= "(:emacs-channel-send "@);
    }
    s
}

//
// Rendering whole requests.
//

/// The parts of the symbol-listing query around the four kind switches and
/// the package name.
pub open spec fn symbols_query_spec(
    functions: bool,
    macros: bool,
    vars: bool,
    classes: bool,
    package: Seq<char>,
) -> Seq<char> {
    "\n                            (write ((lambda (package)\n                                (let ((res (list)))\n                                    (do-all-symbols (sym package)\n                                        (when (and (or  (and "@
        + crate::parsing::bool_to_nil_or_t_spec(functions)
        + " (and (not (macro-function sym)) (fboundp sym)))\n                                                        (and "@
        + crate::parsing::bool_to_nil_or_t_spec(macros)
        + " (macro-function sym))\n                                                        (and "@
        + crate::parsing::bool_to_nil_or_t_spec(vars)
        + " (boundp sym))\n                                                        (and "@
        + crate::parsing::bool_to_nil_or_t_spec(classes)
        + " (find-class sym nil)))\n                                                    (eql (symbol-package sym)\n                                                        (find-package package)))\n                                            (push sym res)))\n                                    res)) \n                                '"@
        + package + "))\n                            "@
}

/// The wire body of a request, rendered with the current package and the
/// continuation issued for it.
pub open spec fn render_body(m: SlynkMessage, package: Seq<char>, cont: int) -> Seq<char> {
    match m {
        SlynkMessage::Eval(form) => emacs_channel_send_spec(
            "(:process \""@ + crate::text::escape_quotes_spec(form@) + "\")"@,
            1,
        ),
        SlynkMessage::InteractiveEval(form) => emacs_rex_spec(
            "(slynk:interactive-eval \""@ + crate::text::escape_quotes_spec(form@) + "\")"@,
            package,
            cont,
        ),
        SlynkMessage::CompileAndLoadFile(path) => emacs_rex_spec(
            "(slynk:compile-file-for-emacs \""@ + path@ + "\" t)"@,
            package,
            cont,
        ),
        SlynkMessage::LoadFile(path) => emacs_rex_spec(
            "(slynk:load-file \""@ + crate::text::trim_quotes_spec(path@) + "\")"@,
            package,
            cont,
        ),
        SlynkMessage::FindDefinitions(symbol) => emacs_rex_spec(
            "(slynk:find-definitions-for-emacs \""@ + crate::text::escape_quotes_spec(symbol@)
                + "\")"@,
            package,
            cont,
        ),
        SlynkMessage::Stop => emacs_rex_spec("(slynk:quit-lisp)"@, package, cont),
        SlynkMessage::InvokeNthRestart(level, n, thread) => emacs_rex_thread_spec(
            "(slynk:invoke-nth-restart-for-emacs "@ + dec_digits_of(level as int) + " "@
                + dec_digits_of(n as int) + ")"@,
            package,
            thread as int,
            cont,
        ),
        SlynkMessage::EmacsReturn(form, thread, tag) => emacs_return_spec(
            form@,
            thread as int,
            tag as int,
        ),
        SlynkMessage::CompileStringForEmacs { string, buffer, position, filename, policy } => emacs_rex_thread_spec(
            "(slynk:compile-string-for-emacs \""@ + crate::text::escape_quotes_spec(string@)
                + "\" \""@ + buffer@ + "\" '((:position "@ + dec_digits_of(position.pos as int)
                + ") (:line "@ + dec_digits_of(position.line as int) + " "@ + dec_digits_of(
                position.col as int,
            ) + ")) "@ + crate::parsing::nil_or_string_spec(
                match filename {
                    Some(f) => Some(f@),
                    None => None,
                },
            ) + " 'nil)"@,
            package,
            1,
            cont,
        ),
        SlynkMessage::ListAllPackages(_) => emacs_rex_spec(
            "(slynk:interactive-eval \"(list-all-packages)\")"@,
            package,
            cont,
        ),
        SlynkMessage::ListSymbolsInPackage { package: p, vars, macros, functions, classes, cont: _ } => emacs_rex_spec(
            "(slynk:eval-and-grab-output \""@ + symbols_query_spec(
                functions,
                macros,
                vars,
                classes,
                p@,
            ) + "\")"@,
            package,
            cont,
        ),
        SlynkMessage::DescribeForSymbolInfo { symbol, cont: _ } => emacs_rex_spec(
            "(slynk:describe-symbol \""@ + crate::text::escape_quotes_spec(symbol@) + "\")"@,
            package,
            cont,
        ),
        SlynkMessage::AproposForSymbolInfo { symbol, cont: _ } => emacs_rex_spec(
            "(slynk:apropos-list-for-emacs \""@ + crate::text::escape_quotes_spec(symbol@)
                + "\")"@,
            package,
            cont,
        ),
    }
}

/// Renders one request into its wire body.
pub fn render_message(m: &SlynkMessage, package: &str, cont: usize) -> (r: String)
    ensures
        r@ == render_body(*m, package@, cont as int),
{
    match m {
        SlynkMessage::Eval(form) => {
            let escaped = crate::text::escape_quotes(form.as_str());
            let mut f = String::new();
            f.append("(:process \"");
            f.append(escaped.as_str());
            f.append("\")");
            proof {
                assert(Seq::<char>::empty() + "(:process \""@ =~= "(:process \""@);
            }
            emacs_channel_send(f.as_str(), 1)
        },
        SlynkMessage::InteractiveEval(form) => {
            let escaped = crate::text::escape_quotes(form.as_str());
            let mut f = String::new();
            f.append("(slynk:interactive-eval \"");
            f.append(escaped.as_str());
            f.append("\")");
            proof {
                assert(Seq::<char>::empty() + "(slynk:interactive-eval \""@
                    =~= "(slynk:interactive-eval \""@);
            }
            emacs_rex(f.as_str(), package, cont)
        },
        SlynkMessage::CompileAndLoadFile(path) => {
            let mut f = String::new();
            f.append("(slynk:compile-file-for-emacs \"");
            f.append(path.as_str());
            f.append("\" t)");
            proof {
                assert(Seq::<char>::empty() + "(slynk:compile-file-for-emacs \""@
                    =~= "(slynk:compile-file-for-emacs \""@);
            }
            emacs_rex(f.as_str(), package, cont)
        },
        SlynkMessage::LoadFile(path) => {
            let trimmed = crate::text::trim_quotes(path.clone());
            let mut f = String::new();
            f.append("(slynk:load-file \"");
            f.append(trimmed.as_str());
            f.append("\")");
            proof {
                assert(Seq::<char>::empty() + "(slynk:load-file \""@ =~= "(slynk:load-file \""@);
            }
            emacs_rex(f.as_str(), package, cont)
        },
        SlynkMessage::FindDefinitions(symbol) => {
            let escaped = crate::text::escape_quotes(symbol.as_str());
            let mut f = String::new();
            f.append("(slynk:find-definitions-for-emacs \"");
            f.append(escaped.as_str());
            f.append("\")");
            proof {
                assert(Seq::<char>::empty() + "(slynk:find-definitions-for-emacs \""@
                    =~= "(slynk:find-definitions-for-emacs \""@);
            }
            emacs_rex(f.as_str(), package, cont)
        },
        SlynkMessage::Stop => emacs_rex("(slynk:quit-lisp)", package, cont),
        SlynkMessage::InvokeNthRestart(level, n, thread) => {
            let mut f = String::new();
            f.append("(slynk:invoke-nth-restart-for-emacs ");
            f.append(usize_to_dec(*level).as_str());
            f.append(" ");
            f.append(usize_to_dec(*n).as_str());
            f.append(")");
            proof {
                assert(Seq::<char>::empty() + "(slynk:invoke-nth-restart-for-emacs "@
                    =~= "(slynk:invoke-nth-restart-for-emacs "@);
            }
            emacs_rex_thread(f.as_str(), package, *thread, cont)
        },
        SlynkMessage::EmacsReturn(form, thread, tag) => emacs_return(form.as_str(), *thread, *tag),
        SlynkMessage::CompileStringForEmacs { string, buffer, position, filename, policy } => {
            let escaped = crate::text::escape_quotes(string.as_str());
            let fname = crate::parsing::nil_or_string(filename.clone());
            let mut f = String::new();
            f.append("(slynk:compile-string-for-emacs \"");
            f.append(escaped.as_str());
            f.append("\" \"");
            f.append(buffer.as_str());
            f.append("\" '((:position ");
            f.append(usize_to_dec(position.pos).as_str());
            f.append(") (:line ");
            f.append(usize_to_dec(position.line).as_str());
            f.append(" ");
            f.append(usize_to_dec(position.col).as_str());
            f.append(")) ");
            f.append(fname.as_str());
            f.append(" 'nil)");
            proof {
                assert(Seq::<char>::empty() + "(slynk:compile-string-for-emacs \""@
                    =~= "(slynk:compile-string-for-emacs \""@);
            }
            emacs_rex_thread(f.as_str(), package, 1, cont)
        },
        SlynkMessage::ListAllPackages(_) => emacs_rex(
            "(slynk:interactive-eval \"(list-all-packages)\")",
            package,
            cont,
        ),
        SlynkMessage::ListSymbolsInPackage { package: p, vars, macros, functions, classes, cont: _ } => {
            let mut q = String::new();
            q.append(
                "\n                            (write ((lambda (package)\n                                (let ((res (list)))\n                                    (do-all-symbols (sym package)\n                                        (when (and (or  (and ",
            );
            q.append(crate::parsing::bool_to_nil_or_t(functions).as_str());
            q.append(
                " (and (not (macro-function sym)) (fboundp sym)))\n                                                        (and ",
            );
            q.append(crate::parsing::bool_to_nil_or_t(macros).as_str());
            q.append(
                " (macro-function sym))\n                                                        (and ",
            );
            q.append(crate::parsing::bool_to_nil_or_t(vars).as_str());
            q.append(
                " (boundp sym))\n                                                        (and ",
            );
            q.append(crate::parsing::bool_to_nil_or_t(classes).as_str());
            q.append(
                " (find-class sym nil)))\n                                                    (eql (symbol-package sym)\n                                                        (find-package package)))\n                                            (push sym res)))\n                                    res)) \n                                '",
            );
            q.append(p.as_str());
            q.append("))\n                            ");
            proof {
                assert(Seq::<char>::empty()
                    + "\n                            (write ((lambda (package)\n                                (let ((res (list)))\n                                    (do-all-symbols (sym package)\n                                        (when (and (or  (and "@
                    =~= "\n                            (write ((lambda (package)\n                                (let ((res (list)))\n                                    (do-all-symbols (sym package)\n                                        (when (and (or  (and "@);
            }
            let mut f = String::new();
            f.append("(slynk:eval-and-grab-output \"");
            f.append(q.as_str());
            f.append("\")");
            proof {
                assert(Seq::<char>::empty() + "(slynk:eval-and-grab-output \""@
                    =~= "(slynk:eval-and-grab-output \""@);
            }
            emacs_rex(f.as_str(), package, cont)
        },
        SlynkMessage::DescribeForSymbolInfo { symbol, cont: _ } => {
            let escaped = crate::text::escape_quotes(symbol.as_str());
            let mut f = String::new();
            f.append("(slynk:describe-symbol \"");
            f.append(escaped.as_str());
            f.append("\")");
            proof {
                assert(Seq::<char>::empty() + "(slynk:describe-symbol \""@
                    =~= "(slynk:describe-symbol \""@);
            }
            emacs_rex(f.as_str(), package, cont)
        },
        SlynkMessage::AproposForSymbolInfo { symbol, cont: _ } => {
            let escaped = crate::text::escape_quotes(symbol.as_str());
            let mut f = String::new();
            f.append("(slynk:apropos-list-for-emacs \"");
            f.append(escaped.as_str());
            f.append("\")");
            proof {
                assert(Seq::<char>::empty() + "(slynk:apropos-list-for-emacs \""@
                    =~= "(slynk:apropos-list-for-emacs \""@);
            }
            emacs_rex(f.as_str(), package, cont)
        },
    }
}

//
// The session state machine.
//

/// `after` extends `before` with exactly one new pending entry under `cont`.
pub open spec fn pending_extended(
    before: Map<usize, ContinuationCallback>,
    after: Map<usize, ContinuationCallback>,
    cont: usize,
) -> bool {
    &&& after.dom().contains(cont)
    &&& !before.dom().contains(cont)
    &&& after == before.insert(cont, after[cont])
}

/// How the pending map changes when the message taking continuation `cont`
/// is sent: the variants that expect a typed follow-up register one action,
/// the others register nothing.
pub open spec fn pending_after(
    m: SlynkMessage,
    cont: usize,
    before: Map<usize, ContinuationCallback>,
    after: Map<usize, ContinuationCallback>,
) -> bool {
    match m {
        SlynkMessage::InteractiveEval(_) => pending_extended(before, after, cont) && (after[cont]
            matches ContinuationCallback::PrintReturnValue(k) && k == crate::models::PrintKind::Notification),
        SlynkMessage::CompileAndLoadFile(_) => pending_extended(before, after, cont)
            && after[cont] is LoadFile,
        SlynkMessage::LoadFile(_) => pending_extended(before, after, cont) && (after[cont]
            matches ContinuationCallback::Print(msg, k) && msg@ == "File loaded."@ && k
            == crate::models::PrintKind::Repl),
        SlynkMessage::FindDefinitions(_) => pending_extended(before, after, cont)
            && after[cont] is JumpToDef,
        SlynkMessage::ListAllPackages(c) => pending_extended(before, after, cont) && (after[cont]
            matches ContinuationCallback::DisplayPackages(cc) && cc == c),
        SlynkMessage::ListSymbolsInPackage { cont: c, .. } => pending_extended(before, after, cont)
            && (after[cont] matches ContinuationCallback::DisplaySymbolsInPackage(cc) && cc == c),
        SlynkMessage::DescribeForSymbolInfo { cont: c, .. } => pending_extended(before, after, cont)
            && (after[cont] matches ContinuationCallback::DisplayDescribe(cc) && cc == c),
        SlynkMessage::AproposForSymbolInfo { cont: c, .. } => pending_extended(before, after, cont)
            && (after[cont] matches ContinuationCallback::DisplayApropos(cc) && cc == c),
        _ => after == before,
    }
}

/// The pure core of one protocol session: the continuation registry, the
/// current package and prompt, the queue of requests waiting for the writer,
/// and the liveness of the two worker threads.  The threads, the socket and
/// the child process live outside the library and drive this state.
pub struct Session {
    registry: ContinuationRegistry,
    package: String,
    prompt: String,
    queue: Vec<SlynkMessage>,
    stopped: bool,
    reader_alive: bool,
}

impl Session {
    /// The requests enqueued and not yet rendered by the writer.
    pub closed spec fn queue_spec(self) -> Seq<SlynkMessage> {
        self.queue@
    }

    /// The current package, updated on every prompt push.
    pub closed spec fn package_spec(self) -> Seq<char> {
        self.package@
    }

    /// The current prompt, updated on every prompt push.
    pub closed spec fn prompt_spec(self) -> Seq<char> {
        self.prompt@
    }

    /// The continuation counter.
    pub closed spec fn counter_spec(self) -> usize {
        self.registry.counter_spec()
    }

    /// Every continuation id issued so far, in issue order.
    pub closed spec fn issued_ids(self) -> Seq<usize> {
        self.registry.issued_ids()
    }

    /// The pending actions, keyed by continuation id.
    pub closed spec fn pending(self) -> Map<usize, ContinuationCallback> {
        self.registry.pending()
    }

    /// Whether the writer has sent the stop request and accepts nothing more.
    pub closed spec fn is_stopped(self) -> bool {
        self.stopped
    }

    /// Whether the reader is still delivering answers.
    pub closed spec fn reader_live(self) -> bool {
        self.reader_alive
    }

    /// Well-formed: the registry invariants hold.
    pub closed spec fn wf(self) -> bool {
        self.registry.wf()
    }

    /// Everything but the request queue is unchanged between two states.
    pub open spec fn unchanged_but_queue(a: Session, b: Session) -> bool {
        &&& a.package_spec() == b.package_spec()
        &&& a.prompt_spec() == b.prompt_spec()
        &&& a.counter_spec() == b.counter_spec()
        &&& a.issued_ids() == b.issued_ids()
        &&& a.pending() == b.pending()
        &&& a.is_stopped() == b.is_stopped()
        &&& a.reader_live() == b.reader_live()
    }

    /// A fresh session: package `COMMON-LISP-USER`, prompt `CL-USER`, no id
    /// issued, nothing pending, nothing queued, both sides live.
    pub fn new() -> (r: Self)
        ensures
            r.wf(),
            r.package_spec() == "COMMON-LISP-USER"@,
            r.prompt_spec() == "CL-USER"@,
            r.counter_spec() == 0,
            r.issued_ids() == Seq::<usize>::empty(),
            r.pending() == Map::<usize, ContinuationCallback>::empty(),
            r.queue_spec() == Seq::<SlynkMessage>::empty(),
            !r.is_stopped(),
            r.reader_live(),
    {
        Session {
            registry: ContinuationRegistry::new(),
            package: String::from_str("COMMON-LISP-USER"),
            prompt: String::from_str("CL-USER"),
            queue: Vec::new(),
            stopped: false,
            reader_alive: true,
        }
    }

    /// Hands a request to the writer queue; fails once the writer has
    /// stopped, as a send on a closed channel does.
    fn enqueue(&mut self, m: SlynkMessage) -> (r: Result<(), crate::error::BackendError>)
        ensures
            final(self).wf() == old(self).wf(),
            old(self).is_stopped() ==> r is Err && *final(self) == *old(self),
            !old(self).is_stopped() ==> r is Ok && final(self).queue_spec() == old(self).queue_spec().push(m) && Session::unchanged_but_queue(*old(self), *final(self)),
            r matches Err(e) ==> e.0@ == "[Crossbeam] Failed to send"@,
    {
        if self.stopped {
            Err(crate::error::BackendError(String::from_str("[Crossbeam] Failed to send")))
        } else {
            self.queue.push(m);
            Ok(())
        }
    }

    /// Enqueues a plain evaluation of a form in the REPL channel.
    pub fn eval_form(&mut self, form: String) -> (r: Result<(), crate::error::BackendError>)
        ensures
            final(self).wf() == old(self).wf(),
            old(self).is_stopped() ==> r is Err && *final(self) == *old(self),
            !old(self).is_stopped() ==> r is Ok && final(self).queue_spec() == old(self).queue_spec().push(SlynkMessage::Eval(form)) && Session::unchanged_but_queue(
                *old(self),
                *final(self),
            ),
    {
        self.enqueue(SlynkMessage::Eval(form))
    }

    /// Enqueues an interactive evaluation; its result will come back as a
    /// notification.
    pub fn interactive_eval_form(&mut self, form: String) -> (r: Result<
        (),
        crate::error::BackendError,
    >)
        ensures
            final(self).wf() == old(self).wf(),
            old(self).is_stopped() ==> r is Err && *final(self) == *old(self),
            !old(self).is_stopped() ==> r is Ok && final(self).queue_spec() == old(self).queue_spec().push(SlynkMessage::InteractiveEval(form))
                && Session::unchanged_but_queue(*old(self), *final(self)),
    {
        self.enqueue(SlynkMessage::InteractiveEval(form))
    }

    /// Enqueues a compile-and-load request: on a successful compilation
    /// reply, the session will enqueue a load of the produced artifact by
    /// itself.
    pub fn compile_and_load_file(&mut self, path: &str) -> (r: Result<
        (),
        crate::error::BackendError,
    >)
        ensures
            final(self).wf() == old(self).wf(),
            old(self).is_stopped() ==> r is Err && *final(self) == *old(self),
            !old(self).is_stopped() ==> r is Ok && final(self).queue_spec().len() == old(self).queue_spec().len() + 1 && final(self).queue_spec().drop_last() == old(self).queue_spec() && (final(self).queue_spec().last()
                matches SlynkMessage::CompileAndLoadFile(p) && p@ == path@)
                && Session::unchanged_but_queue(*old(self), *final(self)),
    {
        let r = self.enqueue(SlynkMessage::CompileAndLoadFile(path.to_owned()));
        proof {
            if !old(self).is_stopped() {
                assert(final(self).queue_spec().drop_last() =~= old(self).queue_spec());
            }
        }
        r
    }

    /// Enqueues a compilation of an editor region.
    pub fn compile_form(
        &mut self,
        form: String,
        buffer: String,
        position: crate::models::EditorPosition,
        filename: Option<String>,
    ) -> (r: Result<(), crate::error::BackendError>)
        ensures
            final(self).wf() == old(self).wf(),
            old(self).is_stopped() ==> r is Err && *final(self) == *old(self),
            !old(self).is_stopped() ==> r is Ok && final(self).queue_spec().len() == old(self).queue_spec().len() + 1 && final(self).queue_spec().drop_last() == old(self).queue_spec() && (final(self).queue_spec().last()
                matches SlynkMessage::CompileStringForEmacs { string, buffer: b, position: p, filename: f, policy }
                && string == form && b == buffer && p == position && f == filename
                && policy is None) && Session::unchanged_but_queue(*old(self), *final(self)),
    {
        let r = self.enqueue(
            SlynkMessage::CompileStringForEmacs {
                buffer,
                filename,
                policy: None,
                position,
                string: form,
            },
        );
        proof {
            if !old(self).is_stopped() {
                assert(final(self).queue_spec().drop_last() =~= old(self).queue_spec());
            }
        }
        r
    }

    /// Enqueues a find-definitions request for a symbol.
    pub fn find_definition_for_symbol(&mut self, symbol: String) -> (r: Result<
        (),
        crate::error::BackendError,
    >)
        ensures
            final(self).wf() == old(self).wf(),
            old(self).is_stopped() ==> r is Err && *final(self) == *old(self),
            !old(self).is_stopped() ==> r is Ok && final(self).queue_spec() == old(self).queue_spec().push(SlynkMessage::FindDefinitions(symbol))
                && Session::unchanged_but_queue(*old(self), *final(self)),
    {
        self.enqueue(SlynkMessage::FindDefinitions(symbol))
    }

    /// Enqueues a reply to a server-initiated minibuffer read.
    pub fn emacs_return(&mut self, form: &str, thread: usize, tag: usize) -> (r: Result<
        (),
        crate::error::BackendError,
    >)
        ensures
            final(self).wf() == old(self).wf(),
            old(self).is_stopped() ==> r is Err && *final(self) == *old(self),
            !old(self).is_stopped() ==> r is Ok && final(self).queue_spec().len() == old(self).queue_spec().len() + 1 && final(self).queue_spec().drop_last() == old(self).queue_spec() && (final(self).queue_spec().last()
                matches SlynkMessage::EmacsReturn(f, t, g) && f@ == form@ && t == thread && g
                == tag) && Session::unchanged_but_queue(*old(self), *final(self)),
    {
        let r = self.enqueue(SlynkMessage::EmacsReturn(form.to_owned(), thread, tag));
        proof {
            if !old(self).is_stopped() {
                assert(final(self).queue_spec().drop_last() =~= old(self).queue_spec());
            }
        }
        r
    }

    /// Enqueues the invocation of the `n`-th restart of a debugger level.
    pub fn invoke_nth_restart(&mut self, level: usize, n: usize, thread: usize) -> (r: Result<
        (),
        crate::error::BackendError,
    >)
        ensures
            final(self).wf() == old(self).wf(),
            old(self).is_stopped() ==> r is Err && *final(self) == *old(self),
            !old(self).is_stopped() ==> r is Ok && final(self).queue_spec() == old(self).queue_spec().push(SlynkMessage::InvokeNthRestart(level, n, thread))
                && Session::unchanged_but_queue(*old(self), *final(self)),
    {
        self.enqueue(SlynkMessage::InvokeNthRestart(level, n, thread))
    }

    /// Enqueues a list-all-packages request; its reply resolves the pending
    /// UI query `continuation`.
    pub fn list_all_packages(&mut self, continuation: usize) -> (r: Result<
        (),
        crate::error::BackendError,
    >)
        ensures
            final(self).wf() == old(self).wf(),
            old(self).is_stopped() ==> r is Err && *final(self) == *old(self),
            !old(self).is_stopped() ==> r is Ok && final(self).queue_spec() == old(self).queue_spec().push(SlynkMessage::ListAllPackages(continuation))
                && Session::unchanged_but_queue(*old(self), *final(self)),
    {
        self.enqueue(SlynkMessage::ListAllPackages(continuation))
    }

    /// Enqueues a symbol listing for a package, filtered by symbol kind; its
    /// reply resolves the pending UI query `continuation`.
    pub fn get_symbols_in_package(
        &mut self,
        package: String,
        vars: bool,
        functions: bool,
        classes: bool,
        macros: bool,
        continuation: usize,
    ) -> (r: Result<(), crate::error::BackendError>)
        ensures
            final(self).wf() == old(self).wf(),
            old(self).is_stopped() ==> r is Err && *final(self) == *old(self),
            !old(self).is_stopped() ==> r is Ok && final(self).queue_spec().len() == old(self).queue_spec().len() + 1 && final(self).queue_spec().drop_last() == old(self).queue_spec() && (final(self).queue_spec().last()
                matches SlynkMessage::ListSymbolsInPackage { package: p, vars: v, macros: m, functions: f, classes: c, cont }
                && p == package && v == vars && m == macros && f == functions && c == classes
                && cont == continuation) && Session::unchanged_but_queue(*old(self), *final(self)),
    {
        let r = self.enqueue(
            SlynkMessage::ListSymbolsInPackage {
                package,
                vars,
                macros,
                functions,
                classes,
                cont: continuation,
            },
        );
        proof {
            if !old(self).is_stopped() {
                assert(final(self).queue_spec().drop_last() =~= old(self).queue_spec());
            }
        }
        r
    }

    /// Enqueues the stop request.  The writer stops once it has sent it; the
    /// child process is killed outside the library.
    pub fn quit(&mut self) -> (r: Result<(), crate::error::BackendError>)
        ensures
            final(self).wf() == old(self).wf(),
            old(self).is_stopped() ==> r is Err && *final(self) == *old(self),
            !old(self).is_stopped() ==> r is Ok && final(self).queue_spec() == old(self).queue_spec().push(SlynkMessage::Stop) && Session::unchanged_but_queue(
                *old(self),
                *final(self),
            ),
    {
        self.enqueue(SlynkMessage::Stop)
    }

    /// The create-REPL request the writer fires before its loop, under the
    /// current (zero) continuation; a package too long to frame yields
    /// nothing.
    pub fn create_mrepl_request(&self) -> (r: Option<String>)
        ensures
            ({
                let body = emacs_rex_spec(
                    "(slynk-mrepl:create-mrepl 1)"@,
                    self.package_spec(),
                    self.counter_spec() as int,
                );
                &&& (body.len() < crate::codec::FRAME_LIMIT ==> (r matches Some(f) && f@
                    == crate::codec::hex6_of(body.len() as int) + body))
                &&& (body.len() >= crate::codec::FRAME_LIMIT ==> r is None)
            }),
    {
        let body = emacs_rex("(slynk-mrepl:create-mrepl 1)", self.package.as_str(), self.counter());
        let n = body.as_str().unicode_len();
        if n >= 0x1000000 {
            return None;
        }
        Some(crate::codec::encode_frame(body.as_str()))
    }

    /// The counter's current value.
    fn counter(&self) -> (r: usize)
        ensures
            r == self.counter_spec(),
    {
        self.registry.counter_value()
    }

    /// The reader observed a read error: it delivers nothing further and the
    /// session must be torn down from outside.  Nothing is emitted and no
    /// state beyond the liveness flag changes, so consumers observe no
    /// further answers and the process does not panic.
    pub fn handle_read_error(&mut self)
        ensures
            final(self).wf() == old(self).wf(),
            !final(self).reader_live(),
            final(self).queue_spec() == old(self).queue_spec(),
            final(self).package_spec() == old(self).package_spec(),
            final(self).prompt_spec() == old(self).prompt_spec(),
            final(self).counter_spec() == old(self).counter_spec(),
            final(self).issued_ids() == old(self).issued_ids(),
            final(self).pending() == old(self).pending(),
            final(self).is_stopped() == old(self).is_stopped(),
    {
        self.reader_alive = false;
    }

    /// The pending action registered for a continuation, without removing
    /// it; the decoder consults this to disambiguate generic returns.
    pub fn pending_action(&self, id: usize) -> (r: Option<&ContinuationCallback>)
        requires
            self.wf(),
        ensures
            match r {
                Some(action) => self.pending().dom().contains(id) && *action == self.pending()[id],
                None => !self.pending().dom().contains(id),
            },
    {
        self.registry.lookup(id)
    }

    /// Whether the reader side is still delivering answers.
    pub fn reader_is_live(&self) -> (r: bool)
        ensures
            r == self.reader_live(),
    {
        self.reader_alive
    }

    /// Whether the writer can make no progress: nothing waits, the writer
    /// has stopped, the id space is exhausted, or the head request would not
    /// fit a frame.
    pub open spec fn writer_blocked(self) -> bool {
        ||| self.queue_spec().len() == 0
        ||| self.is_stopped()
        ||| self.counter_spec() == usize::MAX
        ||| render_body(self.queue_spec()[0], self.package_spec(), self.counter_spec() + 1).len()
            >= crate::codec::FRAME_LIMIT
    }

    /// Renders the next queued request into a frame: issues the next
    /// continuation, registers the pending action the message asks for, and
    /// stops the writer after the stop request.  Returns `None`, changing
    /// nothing, on an empty queue, a stopped writer, an exhausted id space,
    /// or a head request too large to frame.
    pub fn next_outgoing(&mut self) -> (r: Option<String>)
        requires
            old(self).wf(),
        ensures
            final(self).wf(),
            old(self).writer_blocked() ==> r is None && *final(self) == *old(self),
            !old(self).writer_blocked() ==> {
                let m0 = old(self).queue_spec()[0];
                let cont = (old(self).counter_spec() + 1) as usize;
                let body = render_body(m0, old(self).package_spec(), cont as int);
                &&& (r matches Some(f) && f@ == crate::codec::hex6_of(body.len() as int) + body)
                &&& final(self).queue_spec() == old(self).queue_spec().drop_first()
                &&& final(self).counter_spec() == cont
                &&& final(self).issued_ids() == old(self).issued_ids().push(cont)
                &&& pending_after(m0, cont, old(self).pending(), final(self).pending())
                &&& final(self).package_spec() == old(self).package_spec()
                &&& final(self).prompt_spec() == old(self).prompt_spec()
                &&& final(self).reader_live() == old(self).reader_live()
                &&& final(self).is_stopped() == (m0 is Stop)
            },
    {
        if self.stopped {
            return None;
        }
        if self.queue.len() == 0 {
            return None;
        }
        let counter = self.registry.counter_value();
        if counter == usize::MAX {
            return None;
        }
        // a request the frame header cannot carry stays queued
        let package_now = self.package.clone();
        let head = render_message(&self.queue[0], package_now.as_str(), counter + 1);
        let n = head.as_str().unicode_len();
        if n >= 0x1000000 {
            return None;
        }
        let m = self.queue.remove(0);
        proof {
            assert(self.queue@ =~= old(self).queue_spec().drop_first());
        }
        let cont = self.registry.next_id();
        proof {
            lemma_pending_keys_bounded(old(self).registry);
        }
        match &m {
            SlynkMessage::InteractiveEval(_) => {
                self.registry.register(
                    cont,
                    ContinuationCallback::PrintReturnValue(crate::models::PrintKind::Notification),
                );
            },
            SlynkMessage::CompileAndLoadFile(_) => {
                self.registry.register(cont, ContinuationCallback::LoadFile);
            },
            SlynkMessage::LoadFile(_) => {
                self.registry.register(
                    cont,
                    ContinuationCallback::Print(
                        String::from_str("File loaded."),
                        crate::models::PrintKind::Repl,
                    ),
                );
            },
            SlynkMessage::FindDefinitions(_) => {
                self.registry.register(cont, ContinuationCallback::JumpToDef);
            },
            SlynkMessage::ListAllPackages(c) => {
                self.registry.register(cont, ContinuationCallback::DisplayPackages(*c));
            },
            SlynkMessage::ListSymbolsInPackage { cont: c, .. } => {
                self.registry.register(cont, ContinuationCallback::DisplaySymbolsInPackage(*c));
            },
            SlynkMessage::DescribeForSymbolInfo { cont: c, .. } => {
                self.registry.register(cont, ContinuationCallback::DisplayDescribe(*c));
            },
            SlynkMessage::AproposForSymbolInfo { cont: c, .. } => {
                self.registry.register(cont, ContinuationCallback::DisplayApropos(*c));
            },
            _ => {},
        }
        let package = self.package.clone();
        let body = render_message(&m, package.as_str(), cont);
        if let SlynkMessage::Stop = &m {
            self.stopped = true;
        }
        let frame = crate::codec::encode_frame(body.as_str());
        Some(frame)
    }
}

//
// The reader side: handling decoded answers.
//

/// The error type serde_json reports; opaque to the session, which maps any
/// failure to a protocol-error notification.
#[verifier::external_type_specification]
#[verifier::external_body]
pub struct ExJsonError(serde_json::Error);

/// What `serde_json::to_string` returns for a list of strings; it depends on
/// the strings alone.
pub uninterp spec fn json_of(items: Seq<Seq<char>>) -> Seq<char>;

/// Relies on `serde_json::to_string`: renders a list of strings as a JSON
/// array, a function of the strings alone.  On a list of plain strings it
/// cannot fail: serde_json reports an error only where a `Serialize` impl
/// fails or a map key is not a string, and `Vec<String>` has neither.
#[verifier::external_body]
fn json_string_array(v: &Vec<String>) -> (r: Result<String, serde_json::Error>)
    ensures
        r is Ok,
        r matches Ok(s) ==> s@ == json_of(v.deep_view()),
{
    serde_json::to_string(v)
}

/// Whether the texts stand in nondecreasing byte order.
pub open spec fn views_sorted(ns: Seq<Seq<char>>) -> bool {
    forall|i: int, j: int|
        0 <= i < j < ns.len() ==> crate::parsing::str_le(#[trigger] ns[i], #[trigger] ns[j])
}

impl Session {
    /// Whether the pending action for `cont` is a load of the produced
    /// artifact.
    pub open spec fn pending_load(self, cont: usize) -> bool {
        self.pending().dom().contains(cont) && self.pending()[cont] is LoadFile
    }

    /// Reacts to one decoded answer, as the reader thread does: updates the
    /// package and prompt on a prompt push, derives the answer the pending
    /// action asks for, enqueues the follow-up load after a successful
    /// compilation, and always forwards the answer itself last.
    pub fn handle_answer(&mut self, a: SlynkAnswer) -> (emit: Vec<SlynkAnswer>)
        requires
            old(self).wf(),
            old(self).reader_live(),
        ensures
            final(self).wf(),
            final(self).reader_live(),
            final(self).counter_spec() == old(self).counter_spec(),
            final(self).issued_ids() == old(self).issued_ids(),
            final(self).pending() == old(self).pending(),
            final(self).is_stopped() == old(self).is_stopped(),
            // the prompt push updates the package and prompt; nothing else does
            (a matches SlynkAnswer::ChannelSend { method: ChannelMethod::Prompt {
                package,
                prompt,
                ..
            }, .. } ==> final(self).package_spec() == package@ && final(self).prompt_spec()
                == prompt@),
            !(a matches SlynkAnswer::ChannelSend { method: ChannelMethod::Prompt { .. }, .. })
                ==> final(self).package_spec() == old(self).package_spec() && final(self).prompt_spec() == old(self).prompt_spec(),
            // a successful compilation whose pending action is a load enqueues
            // loading the produced artifact, without further caller action; a
            // failed one enqueues nothing, whatever artifact it names
            (a matches SlynkAnswer::ReturnCompilationResult { continuation, success, fasl_file, .. }
                ==> (old(self).pending_load(continuation) && success ==> (fasl_file matches Some(f)
                ==> final(self).queue_spec().len() == old(self).queue_spec().len() + 1 && final(self).queue_spec().drop_last() == old(self).queue_spec() && (final(self).queue_spec().last() matches SlynkMessage::LoadFile(p) && p@ == f@)))),
            !(a matches SlynkAnswer::ReturnCompilationResult { continuation, success, fasl_file, .. } && old(self).pending_load(continuation) && success && fasl_file is Some) ==> final(self).queue_spec() == old(self).queue_spec(),
            // the answer itself is always forwarded last
            emit@.len() >= 1 && emit@.last() == a,
            // the derived answers
            (a matches SlynkAnswer::Return { continuation, status, value } ==> {
                let cb = old(self).pending();
                if cb.dom().contains(continuation) {
                    match cb[continuation] {
                        ContinuationCallback::PrintReturnValue(k) => emit@.len() == 2 && (if k
                            == crate::models::PrintKind::Repl {
                            emit@[0] matches SlynkAnswer::WriteString { value: v2, repl_result }
                                && v2@ == crate::text::trim_quotes_spec(value@) && !repl_result
                        } else {
                            emit@[0] matches SlynkAnswer::Notify { text, error } && text@
                                == crate::text::trim_quotes_spec(value@) && error == (status
                                != ReturnStatus::Okay)
                        }),
                        ContinuationCallback::Print(msg, k) => emit@.len() == 2 && (if k
                            == crate::models::PrintKind::Repl {
                            emit@[0] matches SlynkAnswer::WriteString { value: v2, repl_result }
                                && v2@ == crate::text::trim_quotes_spec(msg@) && !repl_result
                        } else {
                            emit@[0] matches SlynkAnswer::Notify { text, error } && text@
                                == crate::text::trim_quotes_spec(msg@) && error == (status
                                != ReturnStatus::Okay)
                        }),
                        ContinuationCallback::JumpToDef => emit@.len() == 2 && (emit@[0]
                            matches SlynkAnswer::Notify { text, error } && text@ == value@ && error
                            == (status != ReturnStatus::Okay)),
                        ContinuationCallback::DisplayPackages(c) => emit@.len() == 2 && (emit@[0]
                            matches SlynkAnswer::ResolvePending { continuation: c2, data } && c2
                            == c && (exists|ns: Seq<Seq<char>>|
                            views_sorted(ns) && ns.to_multiset()
                                == crate::parsing::extract_packages(value@).to_multiset() && data@
                                == json_of(ns))),
                        ContinuationCallback::DisplaySymbolsInPackage(c) => emit@.len() == 2 && (
                        if crate::parsing::sym_reply_shape(value@) {
                            emit@[0] matches SlynkAnswer::ResolvePending {
                                continuation: c2,
                                data,
                            } && c2 == c && (exists|
                                t: crate::parsing::Sexp,
                                ns: Seq<Seq<char>>,
                            |
                                #![trigger crate::parsing::complete_parse(
                                    crate::parsing::cleaned_text(value@),
                                    t,
                                ), json_of(ns)]
                                crate::parsing::complete_parse(
                                    crate::parsing::cleaned_text(value@),
                                    t,
                                ) && (crate::parsing::nth_string_content(t, 0) matches Some(l)
                                    && views_sorted(ns) && (
                                if crate::parsing::empty_symbol_list_text(l) {
                                    ns.len() == 0
                                } else {
                                    ns.to_multiset() == crate::parsing::symbol_names_of(
                                        l,
                                    ).to_multiset()
                                }) && data@ == json_of(ns)))
                        } else {
                            emit@[0] matches SlynkAnswer::Notify { error, .. } && error
                        }),
                        _ => emit@.len() == 1,
                    }
                } else {
                    emit@.len() == 1
                }
            }),
            (a matches SlynkAnswer::ReturnCompilationResult { continuation, success, .. } ==> {
                if old(self).pending_load(continuation) && !success {
                    emit@.len() == 2 && (emit@[0] matches SlynkAnswer::Notify { text, error }
                        && text@ == "Failed to compile file."@ && error)
                } else {
                    emit@.len() == 1
                }
            }),
    {
        let mut emit: Vec<SlynkAnswer> = Vec::new();
        match &a {
            SlynkAnswer::ChannelSend { method: ChannelMethod::Prompt { package, prompt, .. }, .. } => {
                self.package = package.clone();
                self.prompt = prompt.clone();
            },
            SlynkAnswer::Return { continuation, status, value } => {
                let is_error = match status {
                    ReturnStatus::Okay => false,
                    ReturnStatus::Abort => true,
                };
                match self.registry.lookup(*continuation) {
                    Some(ContinuationCallback::PrintReturnValue(crate::models::PrintKind::Repl)) => {
                        emit.push(
                            SlynkAnswer::WriteString {
                                value: crate::text::trim_quotes(value.clone()),
                                repl_result: false,
                            },
                        );
                    },
                    Some(
                        ContinuationCallback::PrintReturnValue(
                            crate::models::PrintKind::Notification,
                        ),
                    ) => {
                        emit.push(
                            SlynkAnswer::Notify {
                                text: crate::text::trim_quotes(value.clone()),
                                error: is_error,
                            },
                        );
                    },
                    Some(ContinuationCallback::Print(msg, crate::models::PrintKind::Repl)) => {
                        emit.push(
                            SlynkAnswer::WriteString {
                                value: crate::text::trim_quotes(msg.clone()),
                                repl_result: false,
                            },
                        );
                    },
                    Some(
                        ContinuationCallback::Print(msg, crate::models::PrintKind::Notification),
                    ) => {
                        emit.push(
                            SlynkAnswer::Notify {
                                text: crate::text::trim_quotes(msg.clone()),
                                error: is_error,
                            },
                        );
                    },
                    Some(ContinuationCallback::JumpToDef) => {
                        emit.push(SlynkAnswer::Notify { text: value.clone(), error: is_error });
                    },
                    Some(ContinuationCallback::DisplayPackages(c)) => {
                        let cont2 = *c;
                        let names = match crate::parsing::parse_package_list(value.as_str()) {
                            Ok(ns) => ns,
                            Err(_) => {
                                proof {
                                    assert(false);
                                }
                                unreached()
                            },
                        };
                        match json_string_array(&names) {
                            Ok(data) => {
                                proof {
                                    assert(names.deep_view() =~= names@.map_values(
                                        |s: String| s@,
                                    ));
                                }
                                emit.push(
                                    SlynkAnswer::ResolvePending { continuation: cont2, data },
                                );
                            },
                            Err(_) => {
                                proof {
                                    assert(false);
                                }
                                unreached()
                            },
                        }
                    },
                    Some(ContinuationCallback::DisplaySymbolsInPackage(c)) => {
                        let cont2 = *c;
                        match crate::parsing::parse_symbol_list(value.clone()) {
                            Ok(names) => {
                                match json_string_array(&names) {
                                    Ok(data) => {
                                        proof {
                                            assert(names.deep_view() =~= names@.map_values(
                                                |s: String| s@,
                                            ));
                                        }
                                        emit.push(
                                            SlynkAnswer::ResolvePending {
                                                continuation: cont2,
                                                data,
                                            },
                                        );
                                    },
                                    Err(_) => {
                                        proof {
                                            assert(false);
                                        }
                                        unreached()
                                    },
                                }
                            },
                            Err(_) => {
                                emit.push(
                                    SlynkAnswer::Notify {
                                        text: String::from_str("Failed to decode a reply."),
                                        error: true,
                                    },
                                );
                            },
                        }
                    },
                    _ => {},
                }
            },
            SlynkAnswer::ReturnCompilationResult { continuation, success, fasl_file, .. } => {
                let is_load = match self.registry.lookup(*continuation) {
                    Some(ContinuationCallback::LoadFile) => true,
                    _ => false,
                };
                if is_load {
                    if !*success {
                        emit.push(
                            SlynkAnswer::Notify {
                                text: String::from_str("Failed to compile file."),
                                error: true,
                            },
                        );
                    } else {
                        if let Some(fpath) = fasl_file {
                            let ghost before = self.queue@;
                            self.queue.push(SlynkMessage::LoadFile(fpath.clone()));
                            proof {
                                assert(self.queue@.drop_last() =~= before);
                            }
                        }
                    }
                }
            },
            _ => {},
        }
        emit.push(a);
        emit
    }
}

//
// The child-process output pump.
//

/// Whether `needle` occurs as a contiguous run inside `hay`.
pub open spec fn contains_seq(hay: Seq<char>, needle: Seq<char>) -> bool {
    exists|i: int|
        0 <= i && i + needle.len() <= hay.len() && #[trigger] hay.subrange(i, i + needle.len())
            == needle
}

/// Whether the needle occurs inside the haystack.
fn contains_sub(hay: &Vec<char>, needle: &Vec<char>) -> (r: bool)
    ensures
        r == contains_seq(hay@, needle@),
{
    if needle.len() > hay.len() {
        proof {
            assert(!contains_seq(hay@, needle@));
        }
        return false;
    }
    if needle.len() == 0 {
        proof {
            assert(hay@.subrange(0, 0 + needle@.len() as int) =~= needle@);
            assert(contains_seq(hay@, needle@));
        }
        return true;
    }
    let mut i: usize = 0;
    let last_start = hay.len() - needle.len();
    while i <= last_start
        invariant
            1 <= needle@.len() <= hay@.len(),
            hay@.len() <= usize::MAX,
            last_start == hay@.len() - needle@.len(),
            i <= last_start + 1,
            forall|k: int|
                0 <= k < i ==> #[trigger] hay@.subrange(k, k + needle@.len()) != needle@,
        decreases last_start + 1 - i,
    {
        let mut j: usize = 0;
        let mut hit = true;
        while j < needle.len()
            invariant
                hay@.len() <= usize::MAX,
                i <= hay@.len() - needle@.len(),
                i + needle@.len() <= hay@.len(),
                j <= needle@.len(),
                hit ==> forall|m: int| 0 <= m < j ==> hay@[i + m] == needle@[m],
                !hit ==> hay@.subrange(i as int, i + needle@.len()) != needle@,
            decreases needle@.len() - j,
        {
            if hay[i + j] != needle[j] {
                proof {
                    assert(hay@.subrange(i as int, i + needle@.len()) != needle@) by {
                        if hay@.subrange(i as int, i + needle@.len()) == needle@ {
                            assert(hay@.subrange(i as int, i + needle@.len())[j as int]
                                == needle@[j as int]);
                        }
                    }
                }
                hit = false;
            }
            j += 1;
        }
        if hit {
            proof {
                assert(hay@.subrange(i as int, i + needle@.len()) =~= needle@);
            }
            return true;
        }
        i += 1;
    }
    proof {
        assert(!contains_seq(hay@, needle@)) by {
            if contains_seq(hay@, needle@) {
                let k = choose|k: int|
                    0 <= k && k + needle@.len() <= hay@.len() && #[trigger] hay@.subrange(
                        k,
                        k + needle@.len(),
                    ) == needle@;
                assert(k < i);
            }
        }
    }
    false
}

/// Accumulates the child process's merged output character by character,
/// flushing a line into the log at each newline, and stopping for good when
/// the stop sentinel appears.  This log is the only diagnostic surface when
/// the protocol handshake never completes.
pub struct OutputPump {
    buf: Vec<char>,
    log: Vec<String>,
    stopped: bool,
}

impl OutputPump {
    /// The line being accumulated.
    pub closed spec fn buf_spec(self) -> Seq<char> {
        self.buf@
    }

    /// The flushed lines, oldest first.
    pub closed spec fn log_spec(self) -> Seq<Seq<char>> {
        self.log@.map_values(|s: String| s@)
    }

    /// Whether the sentinel has been seen; nothing is read after it.
    pub closed spec fn is_stopped(self) -> bool {
        self.stopped
    }

    /// A fresh pump: empty buffer, empty log, running.
    pub fn new() -> (r: Self)
        ensures
            r.buf_spec() == Seq::<char>::empty(),
            r.log_spec() == Seq::<Seq<char>>::empty(),
            !r.is_stopped(),
    {
        let r = OutputPump { buf: Vec::new(), log: Vec::new(), stopped: false };
        proof {
            assert(r.log@.map_values(|s: String| s@) =~= Seq::<Seq<char>>::empty());
        }
        r
    }

    /// Feeds one character of process output: on the stop sentinel the
    /// grown buffer is flushed into the log and the pump stops; on a newline
    /// it is flushed and cleared; otherwise it just grows.  The flushed line,
    /// if any, is returned for forwarding.
    pub fn push_char(&mut self, c: char) -> (flushed: Option<String>)
        requires
            !old(self).is_stopped(),
        ensures
            ({
                let nb = old(self).buf_spec().push(c);
                if contains_seq(nb, STOP_SIG@) {
                    &&& final(self).is_stopped()
                    &&& final(self).log_spec() == old(self).log_spec().push(nb)
                    &&& final(self).buf_spec() == nb
                    &&& (flushed matches Some(l) && l@ == nb)
                } else if c == '\n' {
                    &&& !final(self).is_stopped()
                    &&& final(self).log_spec() == old(self).log_spec().push(nb)
                    &&& final(self).buf_spec() == Seq::<char>::empty()
                    &&& (flushed matches Some(l) && l@ == nb)
                } else {
                    &&& !final(self).is_stopped()
                    &&& final(self).log_spec() == old(self).log_spec()
                    &&& final(self).buf_spec() == nb
                    &&& flushed is None
                }
            }),
    {
        self.buf.push(c);
        let sig = crate::text::str_chars(STOP_SIG);
        if contains_sub(&self.buf, &sig) {
            let line = chars_to_string(&self.buf);
            let ghost oldlog = self.log@;
            self.log.push(line.clone());
            self.stopped = true;
            proof {
                assert(self.log@.map_values(|s: String| s@) =~= oldlog.map_values(
                    |s: String| s@,
                ).push(self.buf@));
            }
            Some(line)
        } else if c == '\n' {
            let line = chars_to_string(&self.buf);
            let ghost oldlog = self.log@;
            self.log.push(line.clone());
            self.buf = Vec::new();
            proof {
                assert(self.log@.map_values(|s: String| s@) =~= oldlog.map_values(
                    |s: String| s@,
                ).push(line@));
            }
            Some(line)
        } else {
            None
        }
    }

    /// The captured log, for diagnostics when the connection never came up.
    pub fn log_lines(&self) -> (r: &Vec<String>)
        ensures
            r@.map_values(|s: String| s@) == self.log_spec(),
    {
        &self.log
    }
}

} // verus!
