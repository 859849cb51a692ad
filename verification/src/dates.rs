use vstd::prelude::*;

use crate::card_data::CardDay;
use crate::clicker_data::ClickerDay;
use crate::model::{CensoredVisit, ResearchTime, Timestamp, Visit, VisitView};

verus! {

/// Everything read from all the days.
pub struct Dataset {
    pub visits: Vec<Visit>,
    pub censored_visits: Vec<CensoredVisit>,
    pub in_timestamps: Vec<Timestamp>,
    pub out_timestamps: Vec<Timestamp>,
    pub research_times: Vec<ResearchTime>,
}

/// The visits of the days, day after day.
pub open spec fn gathered_visits(days: Seq<(CardDay, ClickerDay)>) -> Seq<VisitView>
    decreases days.len(),
{
    if days.len() == 0 {
        Seq::empty()
    } else {
        gathered_visits(days.drop_last()) + days.last().0.visits.deep_view()
    }
}

/// The censored visits of the days, day after day.
pub open spec fn gathered_censored_visits(days: Seq<(CardDay, ClickerDay)>) -> Seq<CensoredVisit>
    decreases days.len(),
{
    if days.len() == 0 {
        Seq::empty()
    } else {
        gathered_censored_visits(days.drop_last()) + days.last().0.censored_visits@
    }
}

/// The entrance timestamps of the days: for each day those of the cards, then those of
/// the clicker.
pub open spec fn gathered_in_timestamps(days: Seq<(CardDay, ClickerDay)>) -> Seq<Timestamp>
    decreases days.len(),
{
    if days.len() == 0 {
        Seq::empty()
    } else {
        gathered_in_timestamps(days.drop_last()) + days.last().0.in_timestamps@
            + days.last().1.in_timestamps@
    }
}

/// The exit timestamps of the days: for each day those of the cards, then those of the
/// clicker.
pub open spec fn gathered_out_timestamps(days: Seq<(CardDay, ClickerDay)>) -> Seq<Timestamp>
    decreases days.len(),
{
    if days.len() == 0 {
        Seq::empty()
    } else {
        gathered_out_timestamps(days.drop_last()) + days.last().0.out_timestamps@
            + days.last().1.out_timestamps@
    }
}

/// The research time of each day, in order.
pub open spec fn gathered_research_times(days: Seq<(CardDay, ClickerDay)>) -> Seq<ResearchTime> {
    Seq::new(days.len(), |k: int| days[k].0.research_time)
}

/// What the days gather is what each day brings, joined day after day.
proof fn lemma_gathered_flatten(days: Seq<(CardDay, ClickerDay)>)
    ensures
        gathered_visits(days) == days.map_values(|d: (CardDay, ClickerDay)| d.0.visits.deep_view()).flatten_alt(),
        gathered_censored_visits(days) == days.map_values(|d: (CardDay, ClickerDay)| d.0.censored_visits@).flatten_alt(),
        gathered_in_timestamps(days) == days.map_values(|d: (CardDay, ClickerDay)| d.0.in_timestamps@ + d.1.in_timestamps@).flatten_alt(),
        gathered_out_timestamps(days) == days.map_values(|d: (CardDay, ClickerDay)| d.0.out_timestamps@ + d.1.out_timestamps@).flatten_alt(),
    decreases days.len(),
{
    if days.len() > 0 {
        let rest = days.drop_last();
        lemma_gathered_flatten(rest);
        assert(days.map_values(|d: (CardDay, ClickerDay)| d.0.visits.deep_view()).drop_last() =~= rest.map_values(|d: (CardDay, ClickerDay)| d.0.visits.deep_view()));
        assert(days.map_values(|d: (CardDay, ClickerDay)| d.0.censored_visits@).drop_last() =~= rest.map_values(|d: (CardDay, ClickerDay)| d.0.censored_visits@));
        assert(days.map_values(|d: (CardDay, ClickerDay)| d.0.in_timestamps@ + d.1.in_timestamps@).drop_last() =~= rest.map_values(|d: (CardDay, ClickerDay)| d.0.in_timestamps@ + d.1.in_timestamps@));
        assert(days.map_values(|d: (CardDay, ClickerDay)| d.0.out_timestamps@ + d.1.out_timestamps@).drop_last() =~= rest.map_values(|d: (CardDay, ClickerDay)| d.0.out_timestamps@ + d.1.out_timestamps@));
        assert(gathered_in_timestamps(days) =~= gathered_in_timestamps(rest) + (
        days.last().0.in_timestamps@ + days.last().1.in_timestamps@));
        assert(gathered_out_timestamps(days) =~= gathered_out_timestamps(rest) + (
        days.last().0.out_timestamps@ + days.last().1.out_timestamps@));
    }
}

impl Dataset {
    /// Nothing read yet.
    pub fn new() -> (res: Dataset)
        ensures
            res.visits@.len() == 0,
            res.censored_visits@.len() == 0,
            res.in_timestamps@.len() == 0,
            res.out_timestamps@.len() == 0,
            res.research_times@.len() == 0,
    {
        Dataset {
            visits: Vec::new(),
            censored_visits: Vec::new(),
            in_timestamps: Vec::new(),
            out_timestamps: Vec::new(),
            research_times: Vec::new(),
        }
    }

    /// Adds one day: its card data, then its clicker data.
    pub fn add_day(&mut self, card: CardDay, clicker: ClickerDay)
        ensures
            final(self).visits.deep_view() == old(self).visits.deep_view() + card.visits.deep_view(),
            final(self).censored_visits@ == old(self).censored_visits@ + card.censored_visits@,
            final(self).in_timestamps@ == old(self).in_timestamps@ + card.in_timestamps@
                + clicker.in_timestamps@,
            final(self).out_timestamps@ == old(self).out_timestamps@ + card.out_timestamps@
                + clicker.out_timestamps@,
            final(self).research_times@ == old(self).research_times@.push(card.research_time),
    {
        let CardDay {
            visits: mut card_visits,
            censored_visits: mut card_censored,
            in_timestamps: mut card_ins,
            out_timestamps: mut card_outs,
            research_time,
        } = card;
        let ClickerDay { in_timestamps: mut clicker_ins, out_timestamps: mut clicker_outs } =
            clicker;
        let ghost before = self.visits.deep_view();
        let ghost added = card_visits.deep_view();
        self.visits.append(&mut card_visits);
        assert(self.visits.deep_view() =~= before + added);
        self.censored_visits.append(&mut card_censored);
        self.in_timestamps.append(&mut card_ins);
        self.in_timestamps.append(&mut clicker_ins);
        self.out_timestamps.append(&mut card_outs);
        self.out_timestamps.append(&mut clicker_outs);
        self.research_times.push(research_time);
    }
}

/// Gathers the days, in order: visits and censored visits day after day, entrance and
/// exit timestamps of each day's cards then its clicker, and one research time per day.
pub fn load_dates(days: Vec<(CardDay, ClickerDay)>) -> (res: Dataset)
    ensures
        res.visits.deep_view() == gathered_visits(days@),
        res.censored_visits@ == gathered_censored_visits(days@),
        res.in_timestamps@ == gathered_in_timestamps(days@),
        res.out_timestamps@ == gathered_out_timestamps(days@),
        res.research_times@ == gathered_research_times(days@),
        res.visits.deep_view() == days@.map_values(|d: (CardDay, ClickerDay)| d.0.visits.deep_view()).flatten(),
        res.censored_visits@ == days@.map_values(|d: (CardDay, ClickerDay)| d.0.censored_visits@).flatten(),
        res.in_timestamps@ == days@.map_values(|d: (CardDay, ClickerDay)| d.0.in_timestamps@ + d.1.in_timestamps@).flatten(),
        res.out_timestamps@ == days@.map_values(|d: (CardDay, ClickerDay)| d.0.out_timestamps@ + d.1.out_timestamps@).flatten(),
{
    let ghost all = days@;
    let mut data = Dataset::new();
    assert(data.visits.deep_view() =~= Seq::<VisitView>::empty());
    assert(data.censored_visits@ =~= Seq::<CensoredVisit>::empty());
    assert(data.in_timestamps@ =~= Seq::<Timestamp>::empty());
    assert(data.out_timestamps@ =~= Seq::<Timestamp>::empty());
    assert(all.take(0) =~= Seq::<(CardDay, ClickerDay)>::empty());
    for day in it: days
        invariant
            all == it.seq(),
            data.visits.deep_view() == gathered_visits(all.take(it.index() as int)),
            data.censored_visits@ == gathered_censored_visits(all.take(it.index() as int)),
            data.in_timestamps@ == gathered_in_timestamps(all.take(it.index() as int)),
            data.out_timestamps@ == gathered_out_timestamps(all.take(it.index() as int)),
            data.research_times@ =~= gathered_research_times(all.take(it.index() as int)),
    {
        let ghost k = it.index() as int;
        assert(all.take(k + 1).drop_last() =~= all.take(k));
        assert(all.take(k + 1).last() == day);
        let (card, clicker) = day;
        data.add_day(card, clicker);
        assert(data.research_times@ =~= gathered_research_times(all.take(k + 1)));
    }
    assert(all.take(all.len() as int) =~= all);
    proof {
        lemma_gathered_flatten(all);
        all.map_values(|d: (CardDay, ClickerDay)| d.0.visits.deep_view()).lemma_flatten_and_flatten_alt_are_equivalent();
        all.map_values(|d: (CardDay, ClickerDay)| d.0.censored_visits@).lemma_flatten_and_flatten_alt_are_equivalent();
        all.map_values(|d: (CardDay, ClickerDay)| d.0.in_timestamps@ + d.1.in_timestamps@).lemma_flatten_and_flatten_alt_are_equivalent();
        all.map_values(|d: (CardDay, ClickerDay)| d.0.out_timestamps@ + d.1.out_timestamps@).lemma_flatten_and_flatten_alt_are_equivalent();
    }
    data
}

} // verus!
