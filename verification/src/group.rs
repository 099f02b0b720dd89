//! Grouping named values by the schema's display groups.

use vstd::prelude::*;

use crate::model::{L6Patch, ModelV};
use crate::schema::{DataModel, Group, Param, Slot};
use crate::value::{
    spec_find_model, lemma_find_model, model_matches_slot, Value, ValueMap, ValueV,
};

verus! {

/// One display group of named values, in slot and descriptor order.
pub struct ValueGroup {
    pub name: String,
    pub values: Vec<(String, Value)>,
}

/// The mathematical model of a `ValueGroup`.
#[verifier::ext_equal]
pub struct ValueGroupV {
    pub name: Seq<char>,
    pub values: Seq<(Seq<char>, ValueV)>,
}

impl View for ValueGroup {
    type V = ValueGroupV;

    open spec fn view(&self) -> ValueGroupV {
        ValueGroupV {
            name: self.name@,
            values: self.values@.map_values(|e: (String, Value)| (e.0@, e.1@)),
        }
    }
}

/// The walk of one slot's descriptors: each named descriptor not yet seen
/// takes its stored value, if there is one.
pub open spec fn spec_group_params(
    ps: Seq<Param>,
    values: Map<Seq<char>, ValueV>,
    seen: Seq<Seq<char>>,
    out: Seq<(Seq<char>, ValueV)>,
) -> (Seq<Seq<char>>, Seq<(Seq<char>, ValueV)>)
    decreases ps.len(),
{
    if ps.len() == 0 {
        (seen, out)
    } else {
        let name = match ps[0] {
            Param::SlotModel { name } => Some(name@),
            Param::SlotEnable { name } => Some(name@),
            Param::Param { name, .. } => Some(name@),
            Param::FixedParam { name, .. } => Some(name@),
            Param::IgnoreParam { .. } => None,
        };
        match name {
            None => spec_group_params(ps.drop_first(), values, seen, out),
            Some(n) => {
                if seen.contains(n) {
                    spec_group_params(ps.drop_first(), values, seen, out)
                } else {
                    let out2 = if values.dom().contains(n) {
                        out.push((n, values[n]))
                    } else {
                        out
                    };
                    spec_group_params(ps.drop_first(), values, seen.push(n), out2)
                }
            },
        }
    }
}

/// The walk of one group's slots: a slot matched by no physical model
/// contributes nothing.
pub open spec fn spec_group_slots(
    ss: Seq<Slot>,
    models: Seq<ModelV>,
    values: Map<Seq<char>, ValueV>,
    seen: Seq<Seq<char>>,
    out: Seq<(Seq<char>, ValueV)>,
) -> (Seq<Seq<char>>, Seq<(Seq<char>, ValueV)>)
    decreases ss.len(),
{
    if ss.len() == 0 {
        (seen, out)
    } else {
        let st = if spec_find_model(models, ss[0]) is Some {
            spec_group_params(ss[0].params@, values, seen, out)
        } else {
            (seen, out)
        };
        spec_group_slots(ss.drop_first(), models, values, st.0, st.1)
    }
}

/// The groups a patch's values fall into: one per schema group that
/// contributes at least one named value.
pub open spec fn spec_group_values(
    gs: Seq<Group>,
    models: Seq<ModelV>,
    values: Map<Seq<char>, ValueV>,
) -> Seq<ValueGroupV>
    decreases gs.len(),
{
    if gs.len() == 0 {
        Seq::empty()
    } else {
        let st = spec_group_slots(gs[0].slots@, models, values, Seq::empty(), Seq::empty());
        let rest = spec_group_values(gs.drop_first(), models, values);
        if st.1.len() > 0 {
            seq![ValueGroupV { name: gs[0].name@, values: st.1 }] + rest
        } else {
            rest
        }
    }
}

/// Groups a patch's named values by the schema's display groups, in slot
/// and descriptor order, keeping each name once.  Values may cover only a
/// part of what the schema declares; absent names are simply left out.
pub fn group_values(patch: &L6Patch, values: &ValueMap, model: &DataModel) -> (r: Vec<ValueGroup>)
    requires
        values.wf(),
    ensures
        r@.map_values(|gq: ValueGroup| gq@) == spec_group_values(
            model.groups@,
            crate::model::models_view(patch.models@),
            values@,
        ),
{
    let ghost models_v = crate::model::models_view(patch.models@);
    let ghost gs = model.groups@;
    let ghost vm = values@;
    let mut out: Vec<ValueGroup> = Vec::new();
    proof {
        assert(gs.skip(0) =~= gs);
        assert(out@.map_values(|gq: ValueGroup| gq@) + spec_group_values(gs, models_v, vm)
            =~= spec_group_values(gs, models_v, vm));
    }
    let ngroups = model.groups.len();
    let mut g: usize = 0;
    while g < ngroups
        invariant
            g <= ngroups,
            ngroups == gs.len(),
            gs == model.groups@,
            models_v == crate::model::models_view(patch.models@),
            models_v.len() == patch.models@.len(),
            values.wf(),
            vm == values@,
            out@.map_values(|gq: ValueGroup| gq@) + spec_group_values(
                gs.skip(g as int),
                models_v,
                vm,
            ) == spec_group_values(gs, models_v, vm),
        decreases ngroups - g,
    {
        proof {
            assert(gs.skip(g as int)[0] == gs[g as int]);
            assert(gs.skip(g as int).drop_first() =~= gs.skip(g + 1));
        }
        let group = &model.groups[g];
        let ghost ss = group.slots@;
        let mut seen: Vec<String> = Vec::new();
        let mut gvals: Vec<(String, Value)> = Vec::new();
        let nslots = group.slots.len();
        let mut s: usize = 0;
        proof {
            assert(ss.skip(0) =~= ss);
            assert(seen@.map_values(|x: String| x@) =~= Seq::<Seq<char>>::empty());
            assert(gvals@.map_values(|e: (String, Value)| (e.0@, e.1@)) =~= Seq::<
                (Seq<char>, ValueV),
            >::empty());
        }
        while s < nslots
            invariant
                s <= nslots,
                nslots == ss.len(),
                ss == model.groups@[g as int].slots@,
                ss == group.slots@,
                g < gs.len(),
                gs == model.groups@,
                models_v == crate::model::models_view(patch.models@),
                models_v.len() == patch.models@.len(),
                values.wf(),
                vm == values@,
                spec_group_slots(ss, models_v, vm, Seq::empty(), Seq::empty())
                    == spec_group_slots(
                    ss.skip(s as int),
                    models_v,
                    vm,
                    seen@.map_values(|x: String| x@),
                    gvals@.map_values(|e: (String, Value)| (e.0@, e.1@)),
                ),
            decreases nslots - s,
        {
            proof {
                assert(ss.skip(s as int)[0] == ss[s as int]);
                assert(ss.skip(s as int).drop_first() =~= ss.skip(s + 1));
            }
            let slot = &group.slots[s];
            let nmodels = patch.models.len();
            let mut mi: usize = 0;
            let mut found = false;
            while mi < nmodels && !found
                invariant
                    mi <= nmodels,
                    nmodels == models_v.len(),
                    models_v == crate::model::models_view(patch.models@),
                    models_v.len() == patch.models@.len(),
                    ss == model.groups@[g as int].slots@,
                    s < ss.len(),
                    *slot == ss[s as int],
                    !found ==> forall|j: int|
                        0 <= j < mi ==> !crate::value::spec_model_matches_slot(
                            #[trigger] models_v[j],
                            ss[s as int],
                        ),
                    found ==> mi < nmodels && crate::value::spec_model_matches_slot(
                        models_v[mi as int],
                        ss[s as int],
                    ) && forall|j: int|
                        0 <= j < mi ==> !crate::value::spec_model_matches_slot(
                            #[trigger] models_v[j],
                            ss[s as int],
                        ),
                decreases nmodels - mi + (if found {
                    0int
                } else {
                    1int
                }),
            {
                if model_matches_slot(&patch.models[mi], slot) {
                    found = true;
                } else {
                    mi = mi + 1;
                }
            }
            proof {
                lemma_find_model(models_v, ss[s as int]);
                if found {
                    assert(spec_find_model(models_v, ss[s as int]) == Some(mi as int));
                } else {
                    assert(spec_find_model(models_v, ss[s as int]) is None);
                }
            }
            if found {
                let ghost ps = slot.params@;
                let ghost seen0 = seen@.map_values(|x: String| x@);
                let ghost gvals0 = gvals@.map_values(|e: (String, Value)| (e.0@, e.1@));
                let nparams = slot.params.len();
                let mut p: usize = 0;
                proof {
                    assert(ps.skip(0) =~= ps);
                }
                while p < nparams
                    invariant
                        p <= nparams,
                        nparams == ps.len(),
                        ps == slot.params@,
                        *slot == ss[s as int],
                        s < ss.len(),
                        ss == model.groups@[g as int].slots@,
                        values.wf(),
                        vm == values@,
                        spec_group_params(ps, vm, seen0, gvals0) == spec_group_params(
                            ps.skip(p as int),
                            vm,
                            seen@.map_values(|x: String| x@),
                            gvals@.map_values(|e: (String, Value)| (e.0@, e.1@)),
                        ),
                        spec_group_slots(ss, models_v, vm, Seq::empty(), Seq::empty())
                            == spec_group_slots(
                            ss.skip(s as int),
                            models_v,
                            vm,
                            seen0,
                            gvals0,
                        ),
                        spec_find_model(models_v, ss[s as int]) is Some,
                        gs == model.groups@,
                        g < gs.len(),
                        models_v == crate::model::models_view(patch.models@),
                    decreases nparams - p,
                {
                    proof {
                        assert(ps.skip(p as int)[0] == ps[p as int]);
                        assert(ps.skip(p as int).drop_first() =~= ps.skip(p + 1));
                    }
                    let name_opt: Option<&String> = slot.params[p].get_name();
                    match name_opt {
                        None => {},
                        Some(name) => {
                            if !contains_string(&seen, name) {
                                match values.get(name.as_str()) {
                                    Some(v) => {
                                        let ghost prevg = gvals@;
                                        gvals.push((name.clone(), v.dup()));
                                        proof {
                                            assert(gvals@.drop_last() =~= prevg);
                                            assert(gvals@.map_values(
                                                |e: (String, Value)| (e.0@, e.1@),
                                            ) =~= prevg.map_values(
                                                |e: (String, Value)| (e.0@, e.1@),
                                            ).push((gvals@.last().0@, gvals@.last().1@)));
                                        }
                                    },
                                    None => {},
                                }
                                let ghost prevs = seen@;
                                seen.push(name.clone());
                                proof {
                                    assert(seen@.drop_last() =~= prevs);
                                    assert(seen@.map_values(|x: String| x@) =~= prevs.map_values(
                                        |x: String| x@,
                                    ).push(seen@.last()@));
                                }
                            }
                        },
                    }
                    p = p + 1;
                }
                proof {
                    assert(ps.skip(nparams as int) =~= Seq::<Param>::empty());
                }
            }
            s = s + 1;
        }
        proof {
            assert(ss.skip(nslots as int) =~= Seq::<Slot>::empty());
        }
        if gvals.len() > 0 {
            let vg = ValueGroup { name: group.name.clone(), values: gvals };
            let ghost prevo = out@;
            out.push(vg);
            proof {
                assert(out@.drop_last() =~= prevo);
                assert(out@.map_values(|gq: ValueGroup| gq@) =~= prevo.map_values(
                    |gq: ValueGroup| gq@,
                ).push(out@.last()@));
            }
        }
        g = g + 1;
    }
    proof {
        assert(spec_group_values(gs.skip(ngroups as int), models_v, vm) =~= Seq::<
            ValueGroupV,
        >::empty());
        assert(out@.map_values(|gq: ValueGroup| gq@) =~= out@.map_values(|gq: ValueGroup| gq@)
            + spec_group_values(gs.skip(ngroups as int), models_v, vm));
    }
    out
}

/// Whether a string is among the seen names.
fn contains_string(v: &Vec<String>, x: &String) -> (r: bool)
    ensures
        r == v@.map_values(|s: String| s@).contains(x@),
{
    let n = v.len();
    let mut i: usize = 0;
    while i < n
        invariant
            i <= n,
            n == v@.len(),
            forall|j: int| 0 <= j < i ==> (#[trigger] v@[j])@ != x@,
        decreases n - i,
    {
        if crate::value::string_eq(&v[i], x) {
            proof {
                assert(v@.map_values(|s: String| s@)[i as int] == x@);
            }
            return true;
        }
        i = i + 1;
    }
    proof {
        let mv = v@.map_values(|s: String| s@);
        if mv.contains(x@) {
            let j = choose|j: int| 0 <= j < mv.len() && mv[j] == x@;
            assert(v@[j]@ == x@);
            assert(false);
        }
    }
    false
}

} // verus!
