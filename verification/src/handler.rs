//! The feed handler: the caller's instrument interest set, and the
//! subscription request document built from it.

use vstd::prelude::*;

verus! {

/// One channel-qualified argument of the subscription request.
pub open spec fn sub_arg(sym: Seq<char>) -> Seq<char> {
    "\"trade:"@ + sym + "\""@
}

/// The comma-joined argument list.
pub open spec fn sub_args(syms: Seq<Seq<char>>) -> Seq<char>
    decreases syms.len(),
{
    if syms.len() == 0 {
        Seq::empty()
    } else if syms.len() == 1 {
        sub_arg(syms[0])
    } else {
        sub_arg(syms[0]) + seq![','] + sub_args(syms.drop_first())
    }
}

/// The full outbound subscription document for the given symbols, in
/// their order: `{"op":"subscribe","args":["trade:SYM",...]}`.
pub open spec fn spec_subscription_request(syms: Seq<Seq<char>>) -> Seq<char> {
    "{\"op\":\"subscribe\",\"args\":["@ + sub_args(syms) + "]}"@
}

proof fn lemma_sub_args_snoc(syms: Seq<Seq<char>>, x: Seq<char>)
    requires
        syms.len() >= 1,
    ensures
        sub_args(syms.push(x)) == sub_args(syms) + seq![','] + sub_arg(x),
    decreases syms.len(),
{
    let p = syms.push(x);
    assert(p[0] == syms[0]);
    if syms.len() == 1 {
        assert(p.drop_first() =~= seq![x]);
        assert(sub_args(seq![x]) == sub_arg(x));
    } else {
        assert(p.drop_first() =~= syms.drop_first().push(x));
        lemma_sub_args_snoc(syms.drop_first(), x);
        assert(sub_arg(syms[0]) + seq![','] + (sub_args(syms.drop_first()) + seq![','] + sub_arg(x))
            =~= (sub_arg(syms[0]) + seq![','] + sub_args(syms.drop_first())) + seq![','] + sub_arg(
            x,
        ));
    }
}

/// Holds the instrument symbols of interest and exposes the subscription
/// request and the decode entry point to the transport layer.
pub struct BitmexMdHandler {
    pub symbols: Vec<String>,
}

impl BitmexMdHandler {
    /// A handler with no symbols yet.
    pub fn new() -> (r: BitmexMdHandler)
        ensures
            r.symbols.deep_view() == Seq::<Seq<char>>::empty(),
    {
        let h = BitmexMdHandler { symbols: Vec::new() };
        proof {
            assert(h.symbols.deep_view() =~= Seq::<Seq<char>>::empty());
        }
        h
    }

    /// Add one instrument symbol to the interest set, keeping order.
    pub fn add_symbol(&mut self, symbol: &str)
        ensures
            final(self).symbols.deep_view() == old(self).symbols.deep_view().push(symbol@),
    {
        let ghost olddv = self.symbols.deep_view();
        let ghost oldv = self.symbols@;
        self.symbols.push(String::from_str(symbol));
        proof {
            assert forall|m: int| 0 <= m < self.symbols.deep_view().len() implies #[trigger] self
                .symbols.deep_view()[m] == olddv.push(symbol@)[m] by {
                if m < olddv.len() {
                    assert(self.symbols@[m] == oldv[m]);
                } else {
                    assert(self.symbols@[m] == oldv.push(self.symbols@[olddv.len() as int])[m]);
                }
            }
            assert(self.symbols.deep_view() =~= olddv.push(symbol@));
        }
    }

    /// The outbound subscription document for the current symbols, in
    /// their order. Its wire shape is fixed by the exchange protocol.
    pub fn get_subscription_request(&self) -> (r: String)
        ensures
            r@ == spec_subscription_request(self.symbols.deep_view()),
    {
        let ghost dv = self.symbols.deep_view();
        let mut out = String::from_str("{\"op\":\"subscribe\",\"args\":[");
        let mut k: usize = 0;
        proof {
            assert(dv.subrange(0, 0) =~= Seq::<Seq<char>>::empty());
            assert(out@ =~= "{\"op\":\"subscribe\",\"args\":["@ + sub_args(dv.subrange(0, 0)));
        }
        while k < self.symbols.len()
            invariant
                k <= self.symbols@.len(),
                dv == self.symbols.deep_view(),
                dv.len() == self.symbols@.len(),
                out@ == "{\"op\":\"subscribe\",\"args\":["@ + sub_args(dv.subrange(0, k as int)),
            decreases self.symbols@.len() - k,
        {
            let ghost pre = dv.subrange(0, k as int);
            if k > 0 {
                out.append(",");
            }
            out.append("\"trade:");
            out.append(self.symbols[k].as_str());
            out.append("\"");
            proof {
                assert(self.symbols@[k as int]@ == dv[k as int]);
                assert(dv.subrange(0, k + 1) =~= pre.push(dv[k as int]));
                if k == 0 {
                    assert(sub_args(seq![dv[0]]) == sub_arg(dv[0]));
                    assert(dv.subrange(0, 1) =~= seq![dv[0]]);
                    assert(out@ =~= "{\"op\":\"subscribe\",\"args\":["@ + sub_args(
                        dv.subrange(0, k + 1),
                    ));
                } else {
                    lemma_sub_args_snoc(pre, dv[k as int]);
                    reveal_strlit(",");
                    assert(","@ =~= seq![',']);
                    assert(out@ =~= "{\"op\":\"subscribe\",\"args\":["@ + sub_args(
                        dv.subrange(0, k + 1),
                    ));
                }
            }
            k += 1;
        }
        out.append("]}");
        proof {
            assert(dv.subrange(0, dv.len() as int) =~= dv);
            assert(out@ =~= spec_subscription_request(dv));
        }
        out
    }
}

} // verus!
