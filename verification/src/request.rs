//! A capability call as the guest made it, and the key that stands for it.
//!
//! The arguments of a request are a mapping from names to values. Whatever
//! the order in which they were supplied, they are kept and written in the
//! order of their names, so that requests with the same content have the
//! same key.

use crate::order::{
    lemma_lex_asymmetric, lemma_lex_irreflexive, lemma_lex_total, lemma_lex_transitive, lex_less,
    place_of, same_bytes, Place,
};
use crate::wire::{netstring, put_netstring};
use vstd::prelude::*;
use vstd::slice::*;

verus! {

/// One argument of a request. The value is the serialized form that the
/// caller handed over; the proxy never looks inside.
#[derive(Debug, Clone, PartialEq, Eq)]
pub struct Argument {
    pub name: Vec<u8>,
    pub value: Vec<u8>,
}

/// An `Argument` in specifications.
pub struct ArgumentView {
    pub name: Seq<u8>,
    pub value: Seq<u8>,
}

impl View for Argument {
    type V = ArgumentView;

    open spec fn view(&self) -> ArgumentView {
        ArgumentView { name: self.name@, value: self.value@ }
    }
}

/// The arguments of a list, in specifications.
pub open spec fn arguments_view(v: Seq<Argument>) -> Seq<ArgumentView> {
    Seq::new(v.len(), |i: int| v[i]@)
}

/// Whether the names grow strictly from each argument to the next.
pub open spec fn in_order(args: Seq<ArgumentView>) -> bool {
    forall|i: int, j: int|
        #![trigger args[i], args[j]]
        0 <= i < j < args.len() ==> lex_less(args[i].name, args[j].name)
}

/// The mapping that a list of arguments stands for.
pub open spec fn arguments_map(args: Seq<ArgumentView>) -> Map<Seq<u8>, Seq<u8>>
    decreases args.len(),
{
    if args.len() == 0 {
        Map::empty()
    } else {
        arguments_map(args.drop_last()).insert(args.last().name, args.last().value)
    }
}

/// The arguments of a mapping in the order of their names.
pub open spec fn arguments_in_order(m: Map<Seq<u8>, Seq<u8>>) -> Seq<ArgumentView> {
    choose|s: Seq<ArgumentView>| in_order(s) && arguments_map(s) == m
}

/// The bytes of a list of arguments: name and value of each, one after the
/// other, each with its length in front.
pub open spec fn encode_arguments(args: Seq<ArgumentView>) -> Seq<u8>
    decreases args.len(),
{
    if args.len() == 0 {
        Seq::empty()
    } else {
        encode_arguments(args.drop_last()) + netstring(args.last().name) + netstring(
            args.last().value,
        )
    }
}

/// A `CapabilityRequest` in specifications: its logical content.
#[verifier::ext_equal]
pub struct RequestView {
    pub capability: Seq<u8>,
    pub operation: Seq<u8>,
    pub arguments: Map<Seq<u8>, Seq<u8>>,
}

impl RequestView {
    /// The content with the argument `name` set to `value`.
    pub open spec fn with_argument(self, name: Seq<u8>, value: Seq<u8>) -> RequestView {
        RequestView { arguments: self.arguments.insert(name, value), ..self }
    }
}

/// The canonical key of a request: capability, operation, and then the
/// arguments in the order of their names. It depends on the content of the
/// request alone.
pub open spec fn canonical_key(r: RequestView) -> Seq<u8> {
    netstring(r.capability) + netstring(r.operation) + encode_arguments(
        arguments_in_order(r.arguments),
    )
}

// ---------------------------------------------------------------------
// Facts about argument lists
// ---------------------------------------------------------------------
pub proof fn lemma_in_order_drop_last(args: Seq<ArgumentView>)
    requires
        in_order(args),
        args.len() > 0,
    ensures
        in_order(args.drop_last()),
{
    let d = args.drop_last();
    assert forall|i: int, j: int| 0 <= i < j < d.len() implies lex_less(
        (#[trigger] d[i]).name,
        (#[trigger] d[j]).name,
    ) by {
        assert(d[i] == args[i] && d[j] == args[j]);
    }
}

/// The mapping of a list in order holds exactly the names of the list, each
/// with its value.
pub proof fn lemma_map_of_ordered(args: Seq<ArgumentView>)
    requires
        in_order(args),
    ensures
        forall|i: int|
            0 <= i < args.len() ==> arguments_map(args).dom().contains((#[trigger] args[i]).name)
                && arguments_map(args)[args[i].name] == args[i].value,
        forall|k: Seq<u8>|
            arguments_map(args).dom().contains(k) ==> exists|i: int|
                0 <= i < args.len() && (#[trigger] args[i]).name == k,
    decreases args.len(),
{
    if args.len() > 0 {
        let d = args.drop_last();
        let last = args.last();
        lemma_in_order_drop_last(args);
        lemma_map_of_ordered(d);
        assert forall|i: int| 0 <= i < args.len() implies arguments_map(args).dom().contains(
            (#[trigger] args[i]).name,
        ) && arguments_map(args)[args[i].name] == args[i].value by {
            if i < args.len() - 1 {
                assert(d[i] == args[i]);
                assert(lex_less(args[i].name, args[args.len() - 1].name));
                lemma_lex_irreflexive(last.name);
            }
        }
        assert forall|k: Seq<u8>| arguments_map(args).dom().contains(k) implies exists|i: int|
            0 <= i < args.len() && (#[trigger] args[i]).name == k by {
            if k == last.name {
                assert(args[args.len() - 1].name == k);
            } else {
                assert(arguments_map(d).dom().contains(k));
                let i = choose|i: int| 0 <= i < d.len() && (#[trigger] d[i]).name == k;
                assert(args[i].name == k);
            }
        }
    }
}

/// Two lists in order that stand for the same mapping are the same list.
pub proof fn lemma_ordered_is_unique(s: Seq<ArgumentView>, t: Seq<ArgumentView>)
    requires
        in_order(s),
        in_order(t),
        arguments_map(s) == arguments_map(t),
    ensures
        s == t,
    decreases s.len(),
{
    lemma_map_of_ordered(s);
    lemma_map_of_ordered(t);
    if s.len() == 0 {
        if t.len() > 0 {
            assert(arguments_map(t).dom().contains(t[0].name));
            assert(false);
        }
        assert(s =~= t);
    } else if t.len() == 0 {
        assert(arguments_map(s).dom().contains(s[0].name));
        assert(false);
    } else {
        let a = s.last();
        let b = t.last();
        assert(s[s.len() - 1] == a);
        assert(t[t.len() - 1] == b);
        // each last name occurs in the other list, so neither is the greater
        assert(arguments_map(t).dom().contains(a.name));
        let i = choose|i: int| 0 <= i < t.len() && (#[trigger] t[i]).name == a.name;
        assert(arguments_map(s).dom().contains(b.name));
        let j = choose|j: int| 0 <= j < s.len() && (#[trigger] s[j]).name == b.name;
        if a.name != b.name {
            assert(i < t.len() - 1);
            assert(lex_less(t[i].name, t[t.len() - 1].name));
            assert(j < s.len() - 1);
            assert(lex_less(s[j].name, s[s.len() - 1].name));
            lemma_lex_asymmetric(a.name, b.name);
            assert(false);
        }
        assert(a.value == b.value);
        assert(a == b);
        let sd = s.drop_last();
        let td = t.drop_last();
        lemma_in_order_drop_last(s);
        lemma_in_order_drop_last(t);
        lemma_map_of_ordered(sd);
        lemma_map_of_ordered(td);
        assert(!arguments_map(sd).dom().contains(a.name)) by {
            if arguments_map(sd).dom().contains(a.name) {
                let k = choose|k: int| 0 <= k < sd.len() && (#[trigger] sd[k]).name == a.name;
                assert(sd[k] == s[k]);
                assert(lex_less(s[k].name, s[s.len() - 1].name));
                lemma_lex_irreflexive(a.name);
            }
        }
        assert(!arguments_map(td).dom().contains(a.name)) by {
            if arguments_map(td).dom().contains(a.name) {
                let k = choose|k: int| 0 <= k < td.len() && (#[trigger] td[k]).name == a.name;
                assert(td[k] == t[k]);
                assert(lex_less(t[k].name, t[t.len() - 1].name));
                lemma_lex_irreflexive(a.name);
            }
        }
        assert(arguments_map(sd) =~= arguments_map(s).remove(a.name));
        assert(arguments_map(td) =~= arguments_map(t).remove(a.name));
        lemma_ordered_is_unique(sd, td);
        assert(s =~= sd.push(a));
        assert(t =~= td.push(b));
    }
}

/// The arguments in order of the mapping of a list in order are that list.
pub proof fn lemma_arguments_in_order_of(args: Seq<ArgumentView>)
    requires
        in_order(args),
    ensures
        arguments_in_order(arguments_map(args)) == args,
{
    let m = arguments_map(args);
    let s = arguments_in_order(m);
    assert(in_order(args) && arguments_map(args) == m);
    lemma_ordered_is_unique(s, args);
}

/// Putting a new name into a list at any place adds it to the mapping.
pub proof fn lemma_map_insert_at(args: Seq<ArgumentView>, p: int, a: ArgumentView)
    requires
        0 <= p <= args.len(),
        forall|j: int| p <= j < args.len() ==> (#[trigger] args[j]).name != a.name,
    ensures
        arguments_map(args.insert(p, a)) == arguments_map(args).insert(a.name, a.value),
    decreases args.len() - p,
{
    let t = args.insert(p, a);
    if p == args.len() {
        assert(t.drop_last() =~= args);
        assert(t.last() == a);
    } else {
        let d = args.drop_last();
        assert(t.last() == args.last());
        assert(t.drop_last() =~= d.insert(p, a));
        assert forall|j: int| p <= j < d.len() implies (#[trigger] d[j]).name != a.name by {
            assert(d[j] == args[j]);
        }
        lemma_map_insert_at(d, p, a);
        assert(args[args.len() - 1].name != a.name);
        assert(arguments_map(t) =~= arguments_map(args).insert(a.name, a.value));
    }
}

/// Replacing the value of a name in a list replaces it in the mapping.
pub proof fn lemma_map_update_at(args: Seq<ArgumentView>, p: int, a: ArgumentView)
    requires
        0 <= p < args.len(),
        args[p].name == a.name,
        forall|j: int| p < j < args.len() ==> (#[trigger] args[j]).name != a.name,
    ensures
        arguments_map(args.update(p, a)) == arguments_map(args).insert(a.name, a.value),
    decreases args.len() - p,
{
    let t = args.update(p, a);
    let d = args.drop_last();
    if p == args.len() - 1 {
        assert(t.drop_last() =~= d);
        assert(t.last() == a);
        assert(arguments_map(t) =~= arguments_map(args).insert(a.name, a.value));
    } else {
        assert(t.last() == args.last());
        assert(t.drop_last() =~= d.update(p, a));
        assert forall|j: int| p < j < d.len() implies (#[trigger] d[j]).name != a.name by {
            assert(d[j] == args[j]);
        }
        assert(d[p] == args[p]);
        lemma_map_update_at(d, p, a);
        assert(args[args.len() - 1].name != a.name);
        assert(arguments_map(t) =~= arguments_map(args).insert(a.name, a.value));
    }
}

/// Arguments may be supplied in any order: the content, and with it the
/// key, is the same.
pub proof fn lemma_argument_order_is_immaterial(
    r: RequestView,
    first_name: Seq<u8>,
    first_value: Seq<u8>,
    second_name: Seq<u8>,
    second_value: Seq<u8>,
)
    requires
        first_name != second_name,
    ensures
        r.with_argument(first_name, first_value).with_argument(second_name, second_value)
            == r.with_argument(second_name, second_value).with_argument(first_name, first_value),
        canonical_key(
            r.with_argument(first_name, first_value).with_argument(second_name, second_value),
        ) == canonical_key(
            r.with_argument(second_name, second_value).with_argument(first_name, first_value),
        ),
{
    assert(r.with_argument(first_name, first_value).with_argument(second_name, second_value)
        =~= r.with_argument(second_name, second_value).with_argument(first_name, first_value));
}

/// A value that is no JSON text; `reason` is what the JSON parser said.
#[derive(Debug, Clone, PartialEq, Eq)]
pub struct InvalidValue {
    pub reason: String,
}

/// The form in which a JSON text is kept as the value of an argument: what
/// the JSON library writes after reading the text, or the library's
/// complaint about the text.
pub uninterp spec fn json_canonical(text: Seq<u8>) -> Result<Seq<u8>, Seq<char>>;

/// Reads `text` with `serde_json::from_slice` into a `serde_json::Value`
/// and writes that value out again with `serde_json::to_vec`; hands out the
/// bytes written, or the text of the error of whichever call failed.
/// Nothing is claimed of the bytes but that they are what the two calls give
/// for this text, every time.
#[verifier::external_body]
fn canonical_json(text: &[u8]) -> (res: Result<Vec<u8>, String>)
    ensures
        match res {
            Ok(bytes) => json_canonical(text@) == Ok::<Seq<u8>, Seq<char>>(bytes@),
            Err(reason) => json_canonical(text@) == Err::<Seq<u8>, Seq<char>>(reason@),
        },
{
    match serde_json::from_slice::<serde_json::Value>(text) {
        Ok(value) => match serde_json::to_vec(&value) {
            Ok(bytes) => Ok(bytes),
            Err(e) => Err(e.to_string()),
        },
        Err(e) => Err(e.to_string()),
    }
}

/// Whether `a` comes strictly before `b`.
pub fn comes_before(a: &[u8], b: &[u8]) -> (res: bool)
    ensures
        res == lex_less(a@, b@),
{
    match place_of(a, b) {
        Place::Before => true,
        _ => false,
    }
}

/// A copy of a list of arguments.
fn copy_arguments(v: &Vec<Argument>) -> (res: Vec<Argument>)
    ensures
        arguments_view(res@) == arguments_view(v@),
{
    let mut out: Vec<Argument> = Vec::new();
    let n: usize = v.len();
    let mut i: usize = 0;
    while i < n
        invariant
            n == v@.len(),
            i <= n,
            arguments_view(out@) == arguments_view(v@).take(i as int),
        decreases n - i,
    {
        let ghost before = arguments_view(out@);
        let arg = Argument {
            name: slice_to_vec(v[i].name.as_slice()),
            value: slice_to_vec(v[i].value.as_slice()),
        };
        assert(arg@ == v@[i as int]@);
        out.push(arg);
        assert(arguments_view(out@) =~= before.push(arg@));
        assert(arguments_view(out@) =~= arguments_view(v@).take(i + 1));
        i = i + 1;
    }
    assert(arguments_view(v@).take(n as int) =~= arguments_view(v@));
    out
}

/// One call of a host capability: the capability, the operation, and the
/// arguments by name.
#[derive(Debug, PartialEq, Eq)]
pub struct CapabilityRequest {
    capability: Vec<u8>,
    operation: Vec<u8>,
    arguments: Vec<Argument>,
}

impl View for CapabilityRequest {
    type V = RequestView;

    closed spec fn view(&self) -> RequestView {
        RequestView {
            capability: self.capability@,
            operation: self.operation@,
            arguments: arguments_map(arguments_view(self.arguments@)),
        }
    }
}

impl Clone for CapabilityRequest {
    fn clone(&self) -> (res: Self)
        ensures
            res@ == self@,
    {
        proof {
            use_type_invariant(self);
        }
        CapabilityRequest {
            capability: slice_to_vec(self.capability.as_slice()),
            operation: slice_to_vec(self.operation.as_slice()),
            arguments: copy_arguments(&self.arguments),
        }
    }
}

impl CapabilityRequest {
    /// The invariant of the type: the arguments are kept in the order of
    /// their names, so no name occurs twice.
    #[verifier::type_invariant]
    pub closed spec fn well_formed(&self) -> bool {
        in_order(arguments_view(self.arguments@))
    }

    /// The arguments as they are kept and written.
    pub closed spec fn ordered_arguments(&self) -> Seq<ArgumentView> {
        arguments_view(self.arguments@)
    }

    /// What is kept is the content in the order of the names.
    pub proof fn lemma_ordered_arguments(&self)
        requires
            self.well_formed(),
        ensures
            in_order(self.ordered_arguments()),
            arguments_map(self.ordered_arguments()) == self@.arguments,
            self.ordered_arguments() == arguments_in_order(self@.arguments),
    {
        lemma_arguments_in_order_of(arguments_view(self.arguments@));
    }

    /// Two requests with the same content are kept in the same way, and
    /// have the same key.
    pub proof fn lemma_same_content_same_key(&self, other: &CapabilityRequest)
        requires
            self.well_formed(),
            other.well_formed(),
            self@ == other@,
        ensures
            self.ordered_arguments() == other.ordered_arguments(),
            canonical_key(self@) == canonical_key(other@),
    {
        self.lemma_ordered_arguments();
        other.lemma_ordered_arguments();
    }

    /// A request without arguments.
    pub fn new(capability: &[u8], operation: &[u8]) -> (res: Self)
        ensures
            res@ == (RequestView {
                capability: capability@,
                operation: operation@,
                arguments: Map::empty(),
            }),
    {
        let res = CapabilityRequest {
            capability: slice_to_vec(capability),
            operation: slice_to_vec(operation),
            arguments: Vec::new(),
        };
        assert(arguments_view(res.arguments@) =~= Seq::empty());
        res
    }

    /// The request with the argument `name` set to `value`, in place of an
    /// earlier value for that name if there was one.
    pub fn with_argument(self, name: &[u8], value: &[u8]) -> (res: Self)
        ensures
            res@ == self@.with_argument(name@, value@),
    {
        proof {
            use_type_invariant(&self);
        }
        let ghost old_args = arguments_view(self.arguments@);
        let CapabilityRequest { capability, operation, arguments } = self;
        let mut arguments = arguments;
        let n: usize = arguments.len();
        let mut p: usize = 0;
        while p < n && comes_before(arguments[p].name.as_slice(), name)
            invariant
                n == arguments@.len(),
                arguments == self.arguments,
                old_args == arguments_view(arguments@),
                p <= n,
                forall|j: int| 0 <= j < p ==> lex_less((#[trigger] old_args[j]).name, name@),
            decreases n - p,
        {
            assert(old_args[p as int] == arguments@[p as int]@);
            p = p + 1;
        }
        let arg = Argument { name: slice_to_vec(name), value: slice_to_vec(value) };
        let ghost a = arg@;
        if p < n && same_bytes(arguments[p].name.as_slice(), name) {
            proof {
                assert(old_args[p as int] == arguments@[p as int]@);
                assert forall|j: int| p < j < old_args.len() implies (#[trigger] old_args[j]).name
                    != a.name by {
                    assert(lex_less(old_args[p as int].name, old_args[j].name));
                    lemma_lex_irreflexive(a.name);
                }
                lemma_map_update_at(old_args, p as int, a);
            }
            arguments.set(p, arg);
            proof {
                let new_args = arguments_view(arguments@);
                assert(new_args =~= old_args.update(p as int, a));
                assert forall|i: int, j: int| 0 <= i < j < new_args.len() implies lex_less(
                    (#[trigger] new_args[i]).name,
                    (#[trigger] new_args[j]).name,
                ) by {
                    assert(lex_less(old_args[i].name, old_args[j].name));
                }
            }
        } else {
            proof {
                assert forall|j: int| p <= j < old_args.len() implies lex_less(
                    a.name,
                    (#[trigger] old_args[j]).name,
                ) by {
                    assert(old_args[p as int] == arguments@[p as int]@);
                    lemma_lex_total(old_args[p as int].name, a.name);
                    if j > p {
                        assert(lex_less(old_args[p as int].name, old_args[j].name));
                        lemma_lex_transitive(a.name, old_args[p as int].name, old_args[j].name);
                    }
                }
                assert forall|j: int| p <= j < old_args.len() implies (#[trigger] old_args[j]).name
                    != a.name by {
                    lemma_lex_irreflexive(a.name);
                }
                lemma_map_insert_at(old_args, p as int, a);
            }
            arguments.insert(p, arg);
            proof {
                let new_args = arguments_view(arguments@);
                assert(new_args =~= old_args.insert(p as int, a));
                assert forall|i: int, j: int| 0 <= i < j < new_args.len() implies lex_less(
                    (#[trigger] new_args[i]).name,
                    (#[trigger] new_args[j]).name,
                ) by {
                    if i < p && j < p {
                        assert(lex_less(old_args[i].name, old_args[j].name));
                    } else if i < p && j == p {
                        assert(lex_less(old_args[i].name, a.name));
                    } else if i < p && j > p {
                        assert(lex_less(old_args[i].name, old_args[j - 1].name));
                    } else if i == p {
                        assert(lex_less(a.name, old_args[j - 1].name));
                    } else {
                        assert(lex_less(old_args[i - 1].name, old_args[j - 1].name));
                    }
                }
            }
        }
        CapabilityRequest { capability, operation, arguments }
    }

    /// The request with the argument `name` set to the JSON value that
    /// `json` holds. The value is kept in the form in which the JSON library
    /// writes it, so that two texts of the same value give the same key.
    /// Fails where `json` is no JSON text, and only there.
    pub fn with_json_argument(self, name: &[u8], json: &[u8]) -> (res: Result<
        Self,
        InvalidValue,
    >)
        ensures
            match json_canonical(json@) {
                Ok(value) => res matches Ok(r) && r@ == self@.with_argument(name@, value),
                Err(reason) => res matches Err(e) && e.reason@ == reason,
            },
    {
        match canonical_json(json) {
            Ok(value) => Ok(self.with_argument(name, value.as_slice())),
            Err(reason) => Err(InvalidValue { reason }),
        }
    }

    /// The capability family that is called.
    pub fn capability(&self) -> (res: &[u8])
        ensures
            res@ == self@.capability,
    {
        self.capability.as_slice()
    }

    /// The operation that is called.
    pub fn operation(&self) -> (res: &[u8])
        ensures
            res@ == self@.operation,
    {
        self.operation.as_slice()
    }

    /// The number of arguments.
    pub fn argument_count(&self) -> (res: usize)
        ensures
            res == arguments_in_order(self@.arguments).len(),
    {
        proof {
            use_type_invariant(self);
            self.lemma_ordered_arguments();
        }
        self.arguments.len()
    }

    /// The value of the argument `name`, if the request has one.
    pub fn argument(&self, name: &[u8]) -> (res: Option<&[u8]>)
        ensures
            match res {
                Some(v) => self@.arguments.dom().contains(name@) && self@.arguments[name@] == v@,
                None => !self@.arguments.dom().contains(name@),
            },
    {
        let ghost args = arguments_view(self.arguments@);
        proof {
            use_type_invariant(self);
        }
        let n: usize = self.arguments.len();
        let mut i: usize = 0;
        while i < n
            invariant
                n == self.arguments@.len(),
                i <= n,
                args == arguments_view(self.arguments@),
                in_order(args),
                forall|j: int| 0 <= j < i ==> (#[trigger] args[j]).name != name@,
            decreases n - i,
        {
            assert(args[i as int] == self.arguments@[i as int]@);
            if same_bytes(self.arguments[i].name.as_slice(), name) {
                proof {
                    lemma_map_of_ordered(args);
                }
                return Some(self.arguments[i].value.as_slice());
            }
            i = i + 1;
        }
        proof {
            lemma_map_of_ordered(args);
        }
        None
    }

    /// The canonical key of the request: the same bytes for every request
    /// with the same capability, operation and arguments, whatever the order
    /// in which the arguments were supplied.
    pub fn canonicalize(&self) -> (key: Vec<u8>)
        ensures
            key@ == canonical_key(self@),
    {
        proof {
            use_type_invariant(self);
        }
        let ghost args = arguments_view(self.arguments@);
        let mut out: Vec<u8> = Vec::new();
        put_netstring(&mut out, self.capability.as_slice());
        put_netstring(&mut out, self.operation.as_slice());
        let ghost head = netstring(self.capability@) + netstring(self.operation@);
        assert(out@ =~= head);
        let n: usize = self.arguments.len();
        let mut i: usize = 0;
        assert(encode_arguments(args.take(0)) =~= Seq::<u8>::empty());
        while i < n
            invariant
                n == self.arguments@.len(),
                i <= n,
                args == arguments_view(self.arguments@),
                out@ == head + encode_arguments(args.take(i as int)),
            decreases n - i,
        {
            put_netstring(&mut out, self.arguments[i].name.as_slice());
            put_netstring(&mut out, self.arguments[i].value.as_slice());
            proof {
                let t = args.take(i + 1);
                assert(t.drop_last() =~= args.take(i as int));
                assert(t.last() == self.arguments@[i as int]@);
                assert(out@ =~= head + encode_arguments(t));
            }
            i = i + 1;
        }
        proof {
            assert(args.take(n as int) =~= args);
            lemma_arguments_in_order_of(args);
        }
        out
    }
}

} // verus!
