//! The word lists and quote sentences that tests are drawn from.
//!
//! Each list is one string of words separated by spaces, split when it is
//! asked for, so the text below is the whole of the data.
use vstd::prelude::*;

verus! {

/// The most frequent words in English.
pub const ENGLISH: &'static str = "the be of and a to in he have it that for they with as not on she at by this we you do but \
    from or which one would all will there say who make when can more if no man out other so \
    what time up go about than into could state only new year some take come these know see \
    use get like then first any work now may such give over think most even find day also \
    after way many must look before great back through long where much should well people down \
    own just because good each those feel seem how high too place little world very still \
    nation hand old life tell write become here show house both between need mean call develop \
    under last right move thing general school never same another begin while number part turn \
    real leave might want point form off child few small since against ask late home interest \
    large person end open public follow during present without again hold govern around \
    possible head consider word program problem however lead system set order eye plan run \
    keep face fact group play stand increase early course change help line city put close case \
    force meet once water upon war build hear light unite live every country bring center let \
    side try provide continue name certain power pay result question study woman member until \
    far night always service away report something company week church toward start social \
    room figure nature though young less enough almost read include president nothing yet \
    better big boy cost business value second why clear expect family complete act sense mind \
    experience art next near direct car law industry important girl god several matter usual \
    rather per often kind among white reason action return foot care simple within love human \
    along appear doctor believe speak active student month drive concern best door hope \
    example inform body ever least probable understand reach effect different idea whole \
    control condition field pass fall note special talk particular today measure walk teach \
    low hour type carry rate remain full street easy although record sit determine level local \
    sure receive thus moment spirit train college religion perhaps music grow free cause serve \
    age book board recent sound office cut step class true history position above strong \
    friend necessary add court deal tax support party whether either land material happen \
    education death agree arm mother across quite anything town past view society manage \
    answer break organize half fire lose money stop actual already effort wait department able \
    political learn voice air together shall cover common subject draw short wife treat limit \
    road letter color behind produce send term total university rise century success minute \
    remember purpose test fight watch situation south ago difference stage father table rest \
    bear entire market prepare explain offer plant charge ground west picture hard front lie \
    modern dark surface rule regard dance peace observe future wall farm claim firm operation \
    further pressure property morning amount top outside piece sometimes beauty trade fear \
    demand wonder list accept judge paint mile soon responsible allow secretary heart union \
    slow island drink story";

/// The common words plus longer and less common ones.
pub const ENGLISH_EXTENDED: &'static str = "the be of and a to in he have it that for they with as not on she at by this we you do but \
    from or which one would all will there say who make when can more if no man out other so \
    what time up go about than into could state only new year some take come these know see \
    use get like then first any work now may such give over think most even find day also \
    after way many must look before great back through long where much should well people down \
    own just because good each those feel seem how high too place little world very still \
    nation hand old life tell write become here show house both between need mean call develop \
    under last right move thing general school never same another begin while number part turn \
    real leave might want point form off child few small since against ask late home interest \
    large person end open public follow during present without again hold govern around \
    possible head consider word program problem however lead system set order eye plan run \
    keep face fact group play stand increase early course change help line city put close case \
    force meet once water upon war build hear light unite live every country bring center let \
    side try provide continue name certain power pay result question study woman member until \
    far night always service away report something company week church toward start social \
    room figure nature though young less enough almost read include president nothing yet \
    better big boy cost business value second why clear expect family complete act sense mind \
    experience art next near direct car law industry important girl god several matter usual \
    rather per often kind among white reason action return foot care simple within love human \
    along appear doctor believe speak active student month drive concern best door hope \
    example inform body ever least probable understand reach effect different idea whole \
    control condition field pass fall note special talk particular today measure walk teach \
    low hour type carry rate remain full street easy although record sit determine level local \
    sure receive thus moment spirit train college religion perhaps music grow free cause serve \
    age book board recent sound office cut step class true history position above strong \
    friend necessary add court deal tax support party whether either land material happen \
    education death agree arm mother across quite anything town past view society manage \
    answer break organize half fire lose money stop actual already effort wait department able \
    political learn voice air together shall cover common subject draw short wife treat limit \
    road letter color behind produce send term total university rise century success minute \
    remember purpose test fight watch situation south ago difference stage father table rest \
    bear entire market prepare explain offer plant charge ground west picture hard front lie \
    modern dark surface rule regard dance peace observe future wall farm claim firm operation \
    further pressure property morning amount top outside piece sometimes beauty trade fear \
    demand wonder list accept judge paint mile soon responsible allow secretary heart union \
    slow island drink story abandon absolute abstract academy accommodate accompany accumulate \
    accurate achievement acknowledge acquisition adequate adjacent administration adolescent \
    advocate aesthetic affiliate aggregate algorithm allegation alleviate allocate ambiguous \
    amendment analogy anticipate apparatus appreciation approximate arbitrary architecture \
    articulate aspiration assemble assertion assessment attribute authentic autonomy \
    benevolent bibliography bureaucracy calculation capability catastrophe certificate \
    characteristic chronological circumstance coalition cognitive coherent collaborate \
    commemorate commodity comparable compensation competence comprehensive conceive \
    configuration consecutive consensus consequence conservation consolidate conspicuous \
    constitute contemplate contradiction controversy convenience coordinate correspondence \
    counterpart criterion curriculum deliberate demonstrate denomination deteriorate diagnosis \
    dimension discrepancy disproportionate distinguish diversity doctrine documentation \
    elaborate eligible eloquent embarrassment emphasize encyclopedia endeavor enthusiasm \
    equivalent establishment evaluation exaggerate excavation exclusive exemplify expenditure \
    explicit extraordinary facilitate feasible fluctuate formulate fragment fundamental \
    genuine hierarchy hypothesis identical illustrate immense implement implication inadequate \
    incentive incidence incorporate indigenous infrastructure inherent initiative innovation \
    inquiry integrity intermediate interpretation intervention intrinsic invariably \
    jurisdiction justification legislation legitimate liberation magnitude manipulate \
    mechanism mediate metaphor methodology migration miscellaneous negotiate neutral \
    notwithstanding nuisance objective obligation occupation omission orientation paradigm \
    paradox parameter parliament perceive peripheral perspective phenomenon philosophy \
    predominant preliminary prerequisite presumably principle proportion prospective protocol \
    psychology qualitative questionnaire radical rationale reconcile redundant reinforce \
    relevance reluctant remedy renaissance repertoire resilience retrieve rhetoric sanction \
    scenario scrutiny simultaneous sophisticated specification spontaneous statistical \
    subsequent substantial subtle successor supplement sustainable symmetry synthesis \
    temporary tentative terminology threshold transaction transition transparent ubiquitous \
    undermine unprecedented validity variable versatile vulnerable whereas withdrawal";

/// Sentences for quote mode, one per line.
pub const SENTENCES: &'static str = "The quick brown fox jumps over the lazy dog while the farmer watches from the porch.\n\
    Practice does not make perfect, but it does make progress that you can measure.\n\
    A journey of a thousand miles begins with a single step in the right direction.\n\
    Every morning she walked to the harbor to watch the fishing boats come home.\n\
    The library was quiet except for the soft sound of pages turning in the corner.\n\
    He wrote the letter three times before he was happy with how it sounded.\n\
    Good habits are built slowly and broken quickly, so guard them with care.\n\
    The rain stopped just long enough for the children to run across the field.\n\
    Nobody noticed the old clock had stopped until the train had already left.\n\
    When the lights went out, the whole street gathered outside to look at the stars.\n\
    Cooking for a crowd is easier when someone else is willing to wash the dishes.\n\
    The mountain path was narrow, steep and covered in loose stones after the storm.\n\
    She kept a small notebook in her pocket for ideas that arrived at strange hours.\n\
    Learning to type without looking at the keys feels slow at first and then suddenly easy.\n\
    The museum opened a new room full of maps drawn by sailors centuries ago.\n\
    If you want to go fast, go alone, but if you want to go far, go together.\n\
    The garden looked wild in the spring, yet every plant had been placed on purpose.\n\
    They argued about the best route home and arrived an hour later than everyone else.\n\
    A good teacher explains the answer, but a great one makes you want to find it yourself.\n\
    The bakery on the corner sells out of bread long before most people are awake.";

} // verus!
